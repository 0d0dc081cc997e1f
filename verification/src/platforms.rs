//! Platform tags: case-insensitive comparison of tag sets and the icon
//! resource that each known tag renders as.

use vstd::prelude::*;

use crate::text::views_of;

verus! {

/// ASCII lowercase folding of one character.
pub open spec fn lower_char(c: char) -> char {
    if 65 <= (c as u32) && (c as u32) <= 90 {
        (((c as u32) + 32) as u8) as char
    } else {
        c
    }
}

/// A tag folded to its canonical (lowercase) form.
pub open spec fn lower(s: Seq<char>) -> Seq<char> {
    s.map_values(|c: char| lower_char(c))
}

pub proof fn lemma_lower_char_idempotent(c: char)
    ensures
        lower_char(lower_char(c)) == lower_char(c),
{
}

pub proof fn lemma_lower_idempotent(s: Seq<char>)
    ensures
        lower(lower(s)) == lower(s),
{
    assert forall|i: int| 0 <= i < s.len() implies lower(lower(s))[i] == lower(s)[i] by {
        lemma_lower_char_idempotent(s[i]);
    }
    assert(lower(lower(s)) =~= lower(s));
}

fn lower_char_exec(c: char) -> (r: char)
    ensures
        r == lower_char(c),
{
    let u: u32 = c as u32;
    if 65 <= u && u <= 90 {
        ((u + 32) as u8) as char
    } else {
        c
    }
}

/// Whether two tags are the same up to case.
pub fn eq_ignore_case(a: &str, b: &str) -> (r: bool)
    ensures
        r == (lower(a@) == lower(b@)),
{
    let na = a.unicode_len();
    let nb = b.unicode_len();
    if na != nb {
        proof {
            assert(lower(a@).len() != lower(b@).len());
        }
        return false;
    }
    let mut i: usize = 0;
    while i < na
        invariant
            na == a@.len() && na == b@.len(),
            0 <= i <= na,
            forall|j: int| 0 <= j < i ==> lower_char(a@[j]) == lower_char(b@[j]),
        decreases na - i,
    {
        let la = lower_char_exec(a.get_char(i));
        let lb = lower_char_exec(b.get_char(i));
        if la != lb {
            proof {
                assert(lower(a@)[i as int] != lower(b@)[i as int]);
            }
            return false;
        }
        i = i + 1;
    }
    proof {
        assert forall|j: int| 0 <= j < a@.len() implies lower(a@)[j] == lower(b@)[j] by {
            assert(lower_char(a@[j]) == lower_char(b@[j]));
        }
        assert(lower(a@) =~= lower(b@));
    }
    true
}

/// Whether tag `p` is a member, up to case, of the tag set `set`.
pub open spec fn ci_member(p: Seq<char>, set: Seq<Seq<char>>) -> bool {
    exists|j: int| 0 <= j < set.len() && lower(set[j]) == lower(p)
}

/// Case-insensitive membership of a tag in a tag set.
pub fn member_ci(set: &Vec<String>, p: &str) -> (r: bool)
    ensures
        r == ci_member(p@, views_of(set@)),
{
    let mut j: usize = 0;
    while j < set.len()
        invariant
            0 <= j <= set@.len(),
            forall|k: int| 0 <= k < j ==> lower(set@[k]@) != lower(p@),
        decreases set@.len() - j,
    {
        if eq_ignore_case(set[j].as_str(), p) {
            proof {
                assert(views_of(set@)[j as int] == set@[j as int]@);
            }
            return true;
        }
        j = j + 1;
    }
    proof {
        assert forall|k: int| 0 <= k < views_of(set@).len() implies lower(views_of(set@)[k])
            != lower(p@) by {
            assert(views_of(set@)[k] == set@[k]@);
        }
    }
    false
}

/// Whether two tag sets intersect, compared case-insensitively.
pub open spec fn sets_intersect(a: Seq<Seq<char>>, b: Seq<Seq<char>>) -> bool {
    exists|i: int, j: int|
        0 <= i < a.len() && 0 <= j < b.len() && lower(a[i]) == lower(b[j])
}

pub open spec fn matches_platforms(a: Seq<String>, b: Seq<String>) -> bool {
    sets_intersect(views_of(a), views_of(b))
}

/// Whether an item's platform tags intersect a subscription's tags.
pub fn platforms_match(a: &Vec<String>, b: &Vec<String>) -> (r: bool)
    ensures
        r == matches_platforms(a@, b@),
{
    let mut i: usize = 0;
    while i < a.len()
        invariant
            0 <= i <= a@.len(),
            forall|k: int| 0 <= k < i ==> !ci_member(a@[k]@, views_of(b@)),
        decreases a@.len() - i,
    {
        if member_ci(b, a[i].as_str()) {
            proof {
                let j = choose|j: int|
                    0 <= j < views_of(b@).len() && lower(views_of(b@)[j]) == lower(a@[i as int]@);
                assert(views_of(a@)[i as int] == a@[i as int]@);
                assert(lower(views_of(a@)[i as int]) == lower(views_of(b@)[j]));
            }
            return true;
        }
        i = i + 1;
    }
    proof {
        assert forall|i: int, j: int|
            0 <= i < views_of(a@).len() && 0 <= j < views_of(b@).len() implies lower(
            views_of(a@)[i],
        ) != lower(views_of(b@)[j]) by {
            assert(views_of(a@)[i] == a@[i]@);
            assert(views_of(b@)[j] == b@[j]@);
            assert(!ci_member(a@[i]@, views_of(b@)));
        }
    }
    false
}

/// Intersection is symmetric: the two sides of a match can be swapped.
pub proof fn lemma_match_symmetric(a: Seq<Seq<char>>, b: Seq<Seq<char>>)
    ensures
        sets_intersect(a, b) == sets_intersect(b, a),
{
    if sets_intersect(a, b) {
        let (i, j) = choose|i: int, j: int|
            0 <= i < a.len() && 0 <= j < b.len() && lower(a[i]) == lower(b[j]);
        assert(0 <= j < b.len() && 0 <= i < a.len() && lower(b[j]) == lower(a[i]));
    }
    if sets_intersect(b, a) {
        let (j, i) = choose|j: int, i: int|
            0 <= j < b.len() && 0 <= i < a.len() && lower(b[j]) == lower(a[i]);
        assert(0 <= i < a.len() && 0 <= j < b.len() && lower(a[i]) == lower(b[j]));
    }
}

/// Matching is case-insensitive: folding one side to canonical case
/// changes nothing.
pub proof fn lemma_match_case_insensitive(a: Seq<Seq<char>>, b: Seq<Seq<char>>)
    ensures
        sets_intersect(a.map_values(|p: Seq<char>| lower(p)), b) == sets_intersect(a, b),
{
    let la = a.map_values(|p: Seq<char>| lower(p));
    if sets_intersect(la, b) {
        let (i, j) = choose|i: int, j: int|
            0 <= i < la.len() && 0 <= j < b.len() && lower(la[i]) == lower(b[j]);
        lemma_lower_idempotent(a[i]);
        assert(lower(a[i]) == lower(b[j]));
    }
    if sets_intersect(a, b) {
        let (i, j) = choose|i: int, j: int|
            0 <= i < a.len() && 0 <= j < b.len() && lower(a[i]) == lower(b[j]);
        lemma_lower_idempotent(a[i]);
        assert(0 <= i < la.len() && lower(la[i]) == lower(b[j]));
    }
}

/// The icon resource that a platform tag renders as: one fixed path per
/// known tag, a generic fallback for an unrecognized tag.
pub open spec fn icon_of(p: Seq<char>) -> Seq<char> {
    if lower(p) == "pc"@ {
        "static/pc.png"@
    } else if lower(p) == "ps"@ || lower(p) == "playstation"@ {
        "static/ps.png"@
    } else if lower(p) == "xbox"@ {
        "static/xbox.png"@
    } else {
        "static/unknown.png"@
    }
}

/// A string literal made only of unfoldable characters is its own
/// canonical form.
proof fn lemma_lower_fixed(s: Seq<char>)
    requires
        forall|i: int| 0 <= i < s.len() ==> !(65 <= (#[trigger] s[i]) as u32 <= 90),
    ensures
        lower(s) == s,
{
    assert forall|i: int| 0 <= i < s.len() implies lower(s)[i] == s[i] by {
        assert(lower_char(s[i]) == s[i]);
    }
    assert(lower(s) =~= s);
}

/// The icon path for one platform tag.
pub fn icon_for(p: &str) -> (r: String)
    ensures
        r@ == icon_of(p@),
{
    proof {
        reveal_strlit("pc");
        reveal_strlit("ps");
        reveal_strlit("playstation");
        reveal_strlit("xbox");
        lemma_lower_fixed("pc"@);
        lemma_lower_fixed("ps"@);
        lemma_lower_fixed("playstation"@);
        lemma_lower_fixed("xbox"@);
    }
    if eq_ignore_case(p, "pc") {
        String::from_str("static/pc.png")
    } else if eq_ignore_case(p, "ps") || eq_ignore_case(p, "playstation") {
        String::from_str("static/ps.png")
    } else if eq_ignore_case(p, "xbox") {
        String::from_str("static/xbox.png")
    } else {
        String::from_str("static/unknown.png")
    }
}

/// The icons of the item tags that are present, up to case, in the
/// subscription's tag set, in the item's own tag order.
pub open spec fn spec_icons(ps: Seq<Seq<char>>, sel: Seq<Seq<char>>) -> Seq<Seq<char>>
    decreases ps.len(),
{
    if ps.len() == 0 {
        Seq::empty()
    } else {
        let rest = spec_icons(ps.drop_last(), sel);
        if ci_member(ps.last(), sel) {
            rest.push(icon_of(ps.last()))
        } else {
            rest
        }
    }
}

/// Render the icon references for the item tags that the subscription
/// selects.
pub fn icons_for_selected(ps: &Vec<String>, sel: &Vec<String>) -> (r: Vec<String>)
    ensures
        views_of(r@) == spec_icons(views_of(ps@), views_of(sel@)),
{
    let mut out: Vec<String> = Vec::new();
    let mut i: usize = 0;
    proof {
        assert(views_of(ps@).take(0) =~= Seq::<Seq<char>>::empty());
    }
    while i < ps.len()
        invariant
            0 <= i <= ps@.len(),
            views_of(out@) == spec_icons(views_of(ps@).take(i as int), views_of(sel@)),
        decreases ps@.len() - i,
    {
        let ghost t = views_of(ps@).take(i + 1);
        proof {
            assert(t.drop_last() =~= views_of(ps@).take(i as int));
            assert(t.last() == views_of(ps@)[i as int]);
            assert(views_of(ps@)[i as int] == ps@[i as int]@);
        }
        if member_ci(sel, ps[i].as_str()) {
            let ic = icon_for(ps[i].as_str());
            out.push(ic);
            proof {
                assert(views_of(out@) =~= views_of(out@.drop_last()).push(
                    icon_of(ps@[i as int]@),
                ));
            }
        }
        i = i + 1;
    }
    proof {
        assert(views_of(ps@).take(ps@.len() as int) =~= views_of(ps@));
    }
    out
}

} // verus!
