//! Building the query URL for the news endpoint: optional tag, limit,
//! offset and platform parameters, and one repeated field selector per
//! requested response field.

use vstd::prelude::*;

use crate::text::{chars_string, dec_digits, push_dec_u64, push_str_chars};

verus! {

/// The repeated field selectors, one per requested field, each with a
/// trailing separator.
pub open spec fn fields_part(fields: Seq<Seq<char>>) -> Seq<char>
    decreases fields.len(),
{
    if fields.len() == 0 {
        Seq::empty()
    } else {
        fields_part(fields.drop_last()) + "field%5B%5D="@ + fields.last() + "&"@
    }
}

/// The full query URL: base endpoint, then each present parameter with
/// a trailing separator, with the final separator dropped.
pub open spec fn spec_news_url(
    tag: Option<Seq<char>>,
    limit: Option<u32>,
    offset: Option<u32>,
    platform: Option<Seq<char>>,
    fields: Seq<Seq<char>>,
) -> Seq<char> {
    let full = "https://api.arcgames.com/v1.0/games/sto/news?"@ + (match tag {
        Some(t) => "tag="@ + t + "&"@,
        None => Seq::empty(),
    }) + (match limit {
        Some(l) => "limit="@ + dec_digits(l as nat) + "&"@,
        None => Seq::empty(),
    }) + (match offset {
        Some(o) => "offset="@ + dec_digits(o as nat) + "&"@,
        None => Seq::empty(),
    }) + fields_part(fields) + (match platform {
        Some(p) => "platform="@ + p + "&"@,
        None => Seq::empty(),
    });
    if full.len() > 0 && full.last() == '&' {
        full.drop_last()
    } else {
        full
    }
}

pub open spec fn opt_str_view(s: Option<&str>) -> Option<Seq<char>> {
    match s {
        Some(t) => Some(t@),
        None => None,
    }
}

/// Build the news query URL for the given parameters.
#[verifier::rlimit(60)]
pub fn build_news_url(
    tag: Option<&str>,
    limit: Option<u32>,
    offset: Option<u32>,
    platform: Option<&str>,
    fields: &[&str],
) -> (r: String)
    ensures
        r@ == spec_news_url(
            opt_str_view(tag),
            limit,
            offset,
            opt_str_view(platform),
            fields@.map_values(|f: &str| f@),
        ),
{
    let mut v: Vec<char> = Vec::new();
    push_str_chars(&mut v, "https://api.arcgames.com/v1.0/games/sto/news?");
    let ghost base = "https://api.arcgames.com/v1.0/games/sto/news?"@;
    proof {
        assert(v@ =~= base);
    }
    match tag {
        Some(t) => {
            push_str_chars(&mut v, "tag=");
            push_str_chars(&mut v, t);
            v.push('&');
        },
        None => {
        },
    }
    let ghost tag_part = (match opt_str_view(tag) {
        Some(t) => "tag="@ + t + "&"@,
        None => Seq::<char>::empty(),
    });
    proof {
        reveal_strlit("&");
        assert(v@ =~= base + tag_part);
    }
    match limit {
        Some(l) => {
            push_str_chars(&mut v, "limit=");
            push_dec_u64(&mut v, l as u64);
            v.push('&');
        },
        None => {
        },
    }
    let ghost limit_part = (match limit {
        Some(l) => "limit="@ + dec_digits(l as nat) + "&"@,
        None => Seq::<char>::empty(),
    });
    proof {
        reveal_strlit("&");
        if limit is Some {
            assert((limit->0 as u64) as nat == limit->0 as nat);
        }
        assert(v@ =~= base + tag_part + limit_part);
    }
    match offset {
        Some(o) => {
            push_str_chars(&mut v, "offset=");
            push_dec_u64(&mut v, o as u64);
            v.push('&');
        },
        None => {
        },
    }
    let ghost offset_part = (match offset {
        Some(o) => "offset="@ + dec_digits(o as nat) + "&"@,
        None => Seq::<char>::empty(),
    });
    proof {
        reveal_strlit("&");
        assert(v@ =~= base + tag_part + limit_part + offset_part);
    }
    let ghost fviews = fields@.map_values(|f: &str| f@);
    let mut i: usize = 0;
    let ghost sofar = v@;
    proof {
        assert(fviews.take(0) =~= Seq::<Seq<char>>::empty());
        assert(v@ =~= sofar + fields_part(fviews.take(0)));
    }
    while i < fields.len()
        invariant
            0 <= i <= fields@.len(),
            fviews == fields@.map_values(|f: &str| f@),
            v@ == sofar + fields_part(fviews.take(i as int)),
        decreases fields@.len() - i,
    {
        let ghost t = fviews.take(i + 1);
        proof {
            assert(t.drop_last() =~= fviews.take(i as int));
            assert(t.last() == fviews[i as int]);
            assert(fviews[i as int] == fields@[i as int]@);
        }
        push_str_chars(&mut v, "field%5B%5D=");
        push_str_chars(&mut v, fields[i]);
        v.push('&');
        proof {
            reveal_strlit("&");
            assert(v@ =~= sofar + fields_part(t));
        }
        i = i + 1;
    }
    proof {
        assert(fviews.take(fields@.len() as int) =~= fviews);
    }
    match platform {
        Some(p) => {
            push_str_chars(&mut v, "platform=");
            push_str_chars(&mut v, p);
            v.push('&');
        },
        None => {
        },
    }
    let ghost platform_part = (match opt_str_view(platform) {
        Some(p) => "platform="@ + p + "&"@,
        None => Seq::<char>::empty(),
    });
    let ghost full = base + tag_part + limit_part + offset_part + fields_part(fviews)
        + platform_part;
    proof {
        reveal_strlit("&");
        assert(v@ =~= full);
    }
    if v.len() > 0 && v[v.len() - 1] == '&' {
        v.pop();
        proof {
            assert(v@ =~= full.drop_last());
        }
    }
    let r = chars_string(&v, 0, v.len());
    proof {
        assert(v@.subrange(0, v@.len() as int) =~= v@);
    }
    r
}

} // verus!
