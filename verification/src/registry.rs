//! The channel registry: which chat channels are subscribed, and to
//! which platform tags. Modeled as a map from channel id to the set of
//! its platform tags; one entry per channel.

use vstd::prelude::*;
use vstd::map::*;

use crate::text::{
    chars_string, csv_fields, csv_fields_from, dec_digits, find_char, is_digit, is_match_at, is_ws,
    lemma_dec_digits_all_digits, lemma_dec_digits_val, parse_fields, parse_u64_chars, parses_u64,
    push_dec_u64, push_str_chars, str_chars, trimmed, views_of,
};
use vstd::assert_sets_equal;
use vstd::seq_lib::*;

verus! {

/// A registry mutation that was refused.
#[derive(Clone, Copy, Debug, PartialEq, Eq, Structural)]
pub enum RegistryError {
    /// The platform list handed in was empty.
    InvalidInput,
}

/// One subscribed channel with its platform tags (never empty).
pub struct ChannelEntry {
    pub channel_id: u64,
    pub platforms: Vec<String>,
}

/// A platform tag sequence read as a set of tags.
pub open spec fn plat_set(ps: Seq<Seq<char>>) -> Set<Seq<char>> {
    Set::new(|q: Seq<char>| ps.contains(q))
}

/// The default platform set: all three supported platforms.
pub open spec fn default_platform_views() -> Seq<Seq<char>> {
    seq!["pc"@, "xbox"@, "ps"@]
}

/// The full default platform list.
pub fn default_platforms() -> (r: Vec<String>)
    ensures
        views_of(r@) == default_platform_views(),
        r@.len() == 3,
{
    let mut r: Vec<String> = Vec::new();
    r.push(String::from_str("pc"));
    r.push(String::from_str("xbox"));
    r.push(String::from_str("ps"));
    proof {
        assert(views_of(r@) =~= default_platform_views());
    }
    r
}

/// Copy a platform list, value for value.
pub fn clone_string_vec(v: &Vec<String>) -> (r: Vec<String>)
    ensures
        r@ == v@,
{
    let mut r: Vec<String> = Vec::new();
    let mut i: usize = 0;
    while i < v.len()
        invariant
            0 <= i <= v@.len(),
            r@ == v@.take(i as int),
        decreases v@.len() - i,
    {
        r.push(v[i].clone());
        i = i + 1;
        proof {
            assert(r@ =~= v@.take(i as int));
        }
    }
    proof {
        assert(v@.take(v@.len() as int) =~= v@);
    }
    r
}

/// The channel-to-platform-set map that an entry list denotes; a later
/// entry for the same id overrides an earlier one.
pub open spec fn map_of(entries: Seq<ChannelEntry>) -> Map<u64, Set<Seq<char>>>
    decreases entries.len(),
{
    if entries.len() == 0 {
        Map::empty()
    } else {
        map_of(entries.drop_last()).insert(
            entries.last().channel_id,
            plat_set(views_of(entries.last().platforms@)),
        )
    }
}

pub open spec fn has_id(entries: Seq<ChannelEntry>, id: u64) -> bool {
    exists|i: int| 0 <= i < entries.len() && entries[i].channel_id == id
}

/// Well-formed entry list: ids unique, platform lists nonempty.
pub open spec fn entries_wf(entries: Seq<ChannelEntry>) -> bool {
    &&& forall|i: int, j: int|
        0 <= i < j < entries.len() ==> entries[i].channel_id != entries[j].channel_id
    &&& forall|i: int| 0 <= i < entries.len() ==> entries[i].platforms@.len() > 0
}

pub proof fn lemma_map_of_contains(entries: Seq<ChannelEntry>)
    ensures
        forall|id: u64| #[trigger] map_of(entries).contains_key(id) <==> has_id(entries, id),
    decreases entries.len(),
{
    if entries.len() == 0 {
    } else {
        let d = entries.drop_last();
        lemma_map_of_contains(d);
        assert forall|id: u64| #[trigger]
            map_of(entries).contains_key(id) <==> has_id(entries, id) by {
            if map_of(entries).contains_key(id) {
                if id == entries.last().channel_id {
                    assert(entries[entries.len() - 1].channel_id == id);
                } else {
                    assert(map_of(d).contains_key(id));
                    let i = choose|i: int| 0 <= i < d.len() && d[i].channel_id == id;
                    assert(entries[i].channel_id == id);
                }
            }
            if has_id(entries, id) {
                let i = choose|i: int| 0 <= i < entries.len() && entries[i].channel_id == id;
                if i < entries.len() - 1 {
                    assert(d[i].channel_id == id);
                    assert(has_id(d, id));
                }
            }
        }
    }
}

pub proof fn lemma_map_of_at(entries: Seq<ChannelEntry>, i: int)
    requires
        entries_wf(entries),
        0 <= i < entries.len(),
    ensures
        map_of(entries).contains_key(entries[i].channel_id),
        map_of(entries)[entries[i].channel_id] == plat_set(views_of(entries[i].platforms@)),
    decreases entries.len(),
{
    let d = entries.drop_last();
    if i == entries.len() - 1 {
    } else {
        assert(entries_wf(d)) by {
            assert(forall|k: int| 0 <= k < d.len() ==> d[k] == entries[k]);
        }
        lemma_map_of_at(d, i);
        assert(entries[i].channel_id != entries.last().channel_id);
    }
}

pub proof fn lemma_map_of_update(entries: Seq<ChannelEntry>, i: int, e: ChannelEntry)
    requires
        entries_wf(entries),
        0 <= i < entries.len(),
        e.channel_id == entries[i].channel_id,
    ensures
        map_of(entries.update(i, e)) == map_of(entries).insert(
            e.channel_id,
            plat_set(views_of(e.platforms@)),
        ),
    decreases entries.len(),
{
    let u = entries.update(i, e);
    let d = entries.drop_last();
    if i == entries.len() - 1 {
        assert(u.drop_last() =~= d);
        assert(u.last() == e);
        assert(map_of(u) == map_of(d).insert(e.channel_id, plat_set(views_of(e.platforms@))));
        assert_maps_equal!(
            map_of(d).insert(e.channel_id, plat_set(views_of(e.platforms@))),
            map_of(entries).insert(e.channel_id, plat_set(views_of(e.platforms@)))
        );
    } else {
        assert(entries_wf(d)) by {
            assert(forall|k: int| 0 <= k < d.len() ==> d[k] == entries[k]);
        }
        lemma_map_of_update(d, i, e);
        assert(u.drop_last() =~= d.update(i, e));
        assert(u.last() == entries.last());
        assert(e.channel_id != entries.last().channel_id);
        assert_maps_equal!(
            map_of(d).insert(e.channel_id, plat_set(views_of(e.platforms@))).insert(
                entries.last().channel_id,
                plat_set(views_of(entries.last().platforms@)),
            ),
            map_of(entries).insert(e.channel_id, plat_set(views_of(e.platforms@)))
        );
    }
}

/// The entry list with every entry for `id` dropped.
pub open spec fn entries_without(entries: Seq<ChannelEntry>, id: u64) -> Seq<ChannelEntry>
    decreases entries.len(),
{
    if entries.len() == 0 {
        entries
    } else {
        let rest = entries_without(entries.drop_last(), id);
        if entries.last().channel_id == id {
            rest
        } else {
            rest.push(entries.last())
        }
    }
}

pub proof fn lemma_entries_without(entries: Seq<ChannelEntry>, id: u64)
    requires
        entries_wf(entries),
    ensures
        entries_wf(entries_without(entries, id)),
        map_of(entries_without(entries, id)) == map_of(entries).remove(id),
        forall|x: ChannelEntry| #[trigger]
            entries_without(entries, id).contains(x) ==> entries.contains(x),
    decreases entries.len(),
{
    let w = entries_without(entries, id);
    if entries.len() == 0 {
        assert_maps_equal!(map_of(entries).remove(id), map_of(entries));
    } else {
        let d = entries.drop_last();
        let e = entries.last();
        assert(entries_wf(d)) by {
            assert(forall|k: int| 0 <= k < d.len() ==> d[k] == entries[k]);
        }
        lemma_entries_without(d, id);
        let wd = entries_without(d, id);
        assert forall|x: ChannelEntry| #[trigger] w.contains(x) implies entries.contains(x) by {
            let k = choose|k: int| 0 <= k < w.len() && w[k] == x;
            if e.channel_id == id {
                assert(wd.contains(x));
                let j = choose|j: int| 0 <= j < d.len() && d[j] == x;
                assert(entries[j] == x);
            } else {
                if k == w.len() - 1 {
                    assert(x == e);
                    assert(entries[entries.len() - 1] == x);
                } else {
                    assert(wd[k] == x);
                    assert(wd.contains(x));
                    let j = choose|j: int| 0 <= j < d.len() && d[j] == x;
                    assert(entries[j] == x);
                }
            }
        }
        if e.channel_id == id {
            assert(w == wd);
            assert_maps_equal!(
                map_of(d).remove(id),
                map_of(d).insert(e.channel_id, plat_set(views_of(e.platforms@))).remove(id)
            );
        } else {
            assert(w == wd.push(e));
            assert(w.drop_last() =~= wd);
            assert(w.last() == e);
            assert(map_of(w) == map_of(wd).insert(e.channel_id, plat_set(views_of(e.platforms@))));
            assert(entries_wf(w)) by {
                assert forall|i: int, j: int|
                    0 <= i < j < w.len() implies w[i].channel_id != w[j].channel_id by {
                    if j == w.len() - 1 {
                        assert(wd.contains(w[i]));
                        let k = choose|k: int| 0 <= k < d.len() && d[k] == w[i];
                        assert(entries[k].channel_id != e.channel_id);
                    } else {
                        assert(wd[i].channel_id != wd[j].channel_id);
                    }
                }
                assert forall|i: int| 0 <= i < w.len() implies w[i].platforms@.len() > 0 by {
                    if i == w.len() - 1 {
                    } else {
                        assert(wd[i].platforms@.len() > 0);
                    }
                }
            }
            assert_maps_equal!(
                map_of(wd).insert(e.channel_id, plat_set(views_of(e.platforms@))),
                map_of(entries).remove(id)
            );
        }
    }
}

/// What registering a channel does to the model map: a fresh channel
/// gets the full default platform set, a present one is untouched.
pub open spec fn register_map(m: Map<u64, Set<Seq<char>>>, id: u64) -> Map<u64, Set<Seq<char>>> {
    if m.contains_key(id) {
        m
    } else {
        m.insert(id, plat_set(default_platform_views()))
    }
}

/// Registering twice is the same as registering once.
pub proof fn lemma_register_idempotent(m: Map<u64, Set<Seq<char>>>, id: u64)
    ensures
        register_map(register_map(m, id), id) == register_map(m, id),
{
}

/// Unregistering a channel that is not tracked changes nothing.
pub proof fn lemma_unregister_unknown(m: Map<u64, Set<Seq<char>>>, id: u64)
    requires
        !m.contains_key(id),
    ensures
        m.remove(id) == m,
{
    assert_maps_equal!(m.remove(id), m);
}

/// The registry: the tracked channels with their platform sets, kept as
/// one structure so that no reader can see them out of step.
pub struct Registry {
    entries: Vec<ChannelEntry>,
}

impl Registry {
    /// Well-formedness: one entry per channel id, no empty platform
    /// list.
    pub closed spec fn wf(self) -> bool {
        entries_wf(self.entries@)
    }

    /// The mapping this registry denotes.
    pub closed spec fn as_map(self) -> Map<u64, Set<Seq<char>>> {
        map_of(self.entries@)
    }

    pub fn new() -> (r: Registry)
        ensures
            r.wf(),
            r.as_map() == Map::<u64, Set<Seq<char>>>::empty(),
    {
        Registry { entries: Vec::new() }
    }

    /// The position of the entry for `id`, if one exists.
    fn find_index(&self, id: u64) -> (r: Option<usize>)
        ensures
            match r {
                Some(i) => i < self.entries@.len() && self.entries@[i as int].channel_id == id,
                None => !has_id(self.entries@, id),
            },
    {
        let mut i: usize = 0;
        while i < self.entries.len()
            invariant
                0 <= i <= self.entries@.len(),
                forall|j: int| 0 <= j < i ==> self.entries@[j].channel_id != id,
            decreases self.entries@.len() - i,
        {
            if self.entries[i].channel_id == id {
                return Some(i);
            }
            i = i + 1;
        }
        None
    }

    /// Whether `id` is tracked.
    pub fn has_channel(&self, id: u64) -> (r: bool)
        ensures
            r == self.as_map().contains_key(id),
    {
        proof {
            lemma_map_of_contains(self.entries@);
        }
        match self.find_index(id) {
            Some(_) => true,
            None => false,
        }
    }

    /// Replace or create the entry for `id` with the given platforms.
    fn put(&mut self, id: u64, platforms: Vec<String>)
        requires
            old(self).wf(),
            platforms@.len() > 0,
        ensures
            final(self).wf(),
            final(self).as_map() == old(self).as_map().insert(id, plat_set(views_of(platforms@))),
    {
        let ghost orig = self.entries@;
        let e = ChannelEntry { channel_id: id, platforms };
        match self.find_index(id) {
            Some(i) => {
                proof {
                    lemma_map_of_update(orig, i as int, e);
                }
                self.entries.set(i, e);
                proof {
                    assert forall|a: int, b: int|
                        0 <= a < b < self.entries@.len() implies self.entries@[a].channel_id
                        != self.entries@[b].channel_id by {
                        assert(orig[a].channel_id == self.entries@[a].channel_id || a == i);
                        assert(orig[b].channel_id == self.entries@[b].channel_id || b == i);
                        assert(orig[a].channel_id != orig[b].channel_id);
                        if a == i {
                            assert(self.entries@[a].channel_id == orig[i as int].channel_id);
                        }
                        if b == i {
                            assert(self.entries@[b].channel_id == orig[i as int].channel_id);
                        }
                    }
                }
            },
            None => {
                self.entries.push(e);
                proof {
                    assert(self.entries@.drop_last() =~= orig);
                    assert(self.entries@.last() == e);
                    assert forall|a: int, b: int|
                        0 <= a < b < self.entries@.len() implies self.entries@[a].channel_id
                        != self.entries@[b].channel_id by {
                        if b == self.entries@.len() - 1 {
                            assert(orig[a].channel_id == self.entries@[a].channel_id);
                            assert(!has_id(orig, id));
                        } else {
                            assert(orig[a].channel_id != orig[b].channel_id);
                        }
                    }
                }
            },
        }
    }

    /// Track `id` with the full default platform set; tracking an
    /// already-tracked channel changes nothing at all.
    pub fn add_channel(&mut self, id: u64)
        requires
            old(self).wf(),
        ensures
            final(self).wf(),
            final(self).as_map() == register_map(old(self).as_map(), id),
            old(self).as_map().contains_key(id) ==> *final(self) == *old(self),
    {
        proof {
            lemma_map_of_contains(self.entries@);
        }
        match self.find_index(id) {
            Some(_) => {
            },
            None => {
                self.put(id, default_platforms());
            },
        }
    }

    /// Stop tracking `id`; a no-op if it was never tracked.
    pub fn remove_channel(&mut self, id: u64)
        requires
            old(self).wf(),
        ensures
            final(self).wf(),
            final(self).as_map() == old(self).as_map().remove(id),
            !old(self).as_map().contains_key(id) ==> *final(self) == *old(self),
    {
        let ghost orig = self.entries@;
        proof {
            lemma_map_of_contains(orig);
            lemma_entries_without(orig, id);
        }
        match self.find_index(id) {
            Some(_) => {
                let mut stack: Vec<ChannelEntry> = Vec::new();
                loop
                    invariant
                        stack@.len() + self.entries@.len() == orig.len(),
                        self.entries@ == orig.take(self.entries@.len() as int),
                        forall|k: int|
                            0 <= k < stack@.len() ==> stack@[k] == orig[orig.len() - 1 - k],
                    ensures
                        self.entries@.len() == 0,
                        stack@.len() == orig.len(),
                        forall|k: int|
                            0 <= k < stack@.len() ==> stack@[k] == orig[orig.len() - 1 - k],
                    decreases self.entries@.len(),
                {
                    let ghost before = self.entries@;
                    match self.entries.pop() {
                        Some(it) => {
                            proof {
                                assert(it == orig[before.len() - 1]);
                                assert(self.entries@ =~= orig.take(self.entries@.len() as int));
                            }
                            stack.push(it);
                        },
                        None => {
                            break;
                        },
                    }
                }
                proof {
                    assert(orig.take(0) =~= Seq::<ChannelEntry>::empty());
                }
                loop
                    invariant
                        stack@.len() <= orig.len(),
                        forall|k: int|
                            0 <= k < stack@.len() ==> stack@[k] == orig[orig.len() - 1 - k],
                        self.entries@ == entries_without(
                            orig.take((orig.len() - stack@.len()) as int),
                            id,
                        ),
                    ensures
                        stack@.len() == 0,
                        self.entries@ == entries_without(
                            orig.take((orig.len() - stack@.len()) as int),
                            id,
                        ),
                    decreases stack@.len(),
                {
                    let ghost done = (orig.len() - stack@.len()) as int;
                    match stack.pop() {
                        Some(it) => {
                            proof {
                                assert(it == orig[done]);
                                let t = orig.take(done + 1);
                                assert(t.drop_last() =~= orig.take(done));
                                assert(t.last() == orig[done]);
                            }
                            if it.channel_id != id {
                                self.entries.push(it);
                            }
                        },
                        None => {
                            break;
                        },
                    }
                }
                proof {
                    assert(orig.take(orig.len() as int) =~= orig);
                }
            },
            None => {
                proof {
                    lemma_unregister_unknown(map_of(orig), id);
                }
            },
        }
    }

    /// Replace the platform set for `id`; refused, with nothing
    /// changed, when the list is empty.
    pub fn update_channel_platforms(&mut self, id: u64, new_platforms: Vec<String>) -> (r: Result<
        (),
        RegistryError,
    >)
        requires
            old(self).wf(),
        ensures
            final(self).wf(),
            new_platforms@.len() == 0 ==> r == Result::<(), RegistryError>::Err(
                RegistryError::InvalidInput,
            ) && *final(self) == *old(self),
            new_platforms@.len() > 0 ==> r == Result::<(), RegistryError>::Ok(())
                && final(self).as_map() == old(self).as_map().insert(
                id,
                plat_set(views_of(new_platforms@)),
            ),
    {
        if new_platforms.len() == 0 {
            return Err(RegistryError::InvalidInput);
        }
        self.put(id, new_platforms);
        Ok(())
    }

    /// The stored platform list for `id`, or the full default list for
    /// an untracked channel.
    pub fn get_channel_platforms(&self, id: u64) -> (r: Vec<String>)
        requires
            self.wf(),
        ensures
            r@.len() > 0,
            self.as_map().contains_key(id) ==> plat_set(views_of(r@)) == self.as_map()[id],
            !self.as_map().contains_key(id) ==> views_of(r@) == default_platform_views(),
    {
        proof {
            lemma_map_of_contains(self.entries@);
        }
        match self.find_index(id) {
            Some(i) => {
                proof {
                    lemma_map_of_at(self.entries@, i as int);
                    assert(has_id(self.entries@, id)) by {
                        assert(self.entries@[i as int].channel_id == id);
                    }
                    assert(self.entries@[i as int].platforms@.len() > 0);
                }
                let r = clone_string_vec(&self.entries[i].platforms);
                r
            },
            None => default_platforms(),
        }
    }

    /// The tracked channel ids, each once.
    pub fn get_channels(&self) -> (r: Vec<u64>)
        requires
            self.wf(),
        ensures
            forall|id: u64| #[trigger] r@.contains(id) <==> self.as_map().contains_key(id),
            r@.no_duplicates(),
    {
        proof {
            lemma_map_of_contains(self.entries@);
        }
        let mut r: Vec<u64> = Vec::new();
        let mut i: usize = 0;
        while i < self.entries.len()
            invariant
                self.wf(),
                0 <= i <= self.entries@.len(),
                r@.len() == i,
                forall|j: int| 0 <= j < i ==> r@[j] == self.entries@[j].channel_id,
            decreases self.entries@.len() - i,
        {
            r.push(self.entries[i].channel_id);
            i = i + 1;
        }
        proof {
            assert forall|id: u64| #[trigger] r@.contains(id) implies has_id(self.entries@, id) by {
                let j = choose|j: int| 0 <= j < r@.len() && r@[j] == id;
                assert(self.entries@[j].channel_id == id);
            }
            assert forall|id: u64| has_id(self.entries@, id) implies r@.contains(id) by {
                let j = choose|j: int|
                    0 <= j < self.entries@.len() && self.entries@[j].channel_id == id;
                assert(r@[j] == id);
            }
            lemma_map_of_contains(self.entries@);
            assert forall|a: int, b: int| 0 <= a < b < r@.len() implies r@[a] != r@[b] by {
                assert(self.entries@[a].channel_id != self.entries@[b].channel_id);
            }
        }
        r
    }
}


/// A platform tag that the line format can carry: nonempty, free of the
/// separators and of whitespace.
pub open spec fn tag_clean(t: Seq<char>) -> bool {
    t.len() > 0 && forall|i: int| 0 <= i < t.len() ==> t[i] != ',' && t[i] != '|' && !is_ws(t[i])
}

/// Tags joined by single commas.
pub open spec fn joined(ps: Seq<Seq<char>>) -> Seq<char>
    decreases ps.len(),
{
    if ps.len() == 0 {
        Seq::empty()
    } else if ps.len() == 1 {
        ps[0]
    } else {
        ps[0] + ","@ + joined(ps.drop_first())
    }
}

/// The stored line for one channel.
pub open spec fn line_of(id: u64, ps: Seq<Seq<char>>) -> Seq<char> {
    "channel:"@ + dec_digits(id as nat) + "|"@ + joined(ps)
}

pub open spec fn spec_lines(entries: Seq<ChannelEntry>) -> Seq<Seq<char>> {
    entries.map_values(|e: ChannelEntry| line_of(e.channel_id, views_of(e.platforms@)))
}

/// The position of the one `|` of a line body, if there is exactly one.
pub open spec fn single_bar_at(s: Seq<char>) -> Option<int> {
    if exists|i: int|
        0 <= i < s.len() && s[i] == '|' && (forall|j: int|
            0 <= j < s.len() && j != i ==> s[j] != '|') {
        Some(
            choose|i: int|
                0 <= i < s.len() && s[i] == '|' && (forall|j: int|
                    0 <= j < s.len() && j != i ==> s[j] != '|'),
        )
    } else {
        None
    }
}

/// What one stored line denotes: the line must open with the channel
/// marker, hold exactly one field separator, and carry a decimal id
/// that fits; an empty platform list falls back to the full default
/// set. Anything else denotes nothing and is skipped by the loader.
pub open spec fn spec_parse_line(s: Seq<char>) -> Option<(u64, Seq<Seq<char>>)> {
    if s.len() >= 8 && s.take(8) == "channel:"@ {
        let rest = s.skip(8);
        match single_bar_at(rest) {
            Some(b) => match parses_u64(rest.take(b)) {
                Some(id) => {
                    let fields = csv_fields(rest.skip(b + 1));
                    if fields.len() > 0 {
                        Some((id, fields))
                    } else {
                        Some((id, default_platform_views()))
                    }
                },
                None => None,
            },
            None => None,
        }
    } else {
        None
    }
}

/// The mapping that a stored text denotes, line by line; lines that
/// denote nothing are skipped, a later line overrides an earlier one.
pub open spec fn load_map(lines: Seq<Seq<char>>) -> Map<u64, Set<Seq<char>>>
    decreases lines.len(),
{
    if lines.len() == 0 {
        Map::empty()
    } else {
        let m = load_map(lines.drop_last());
        match spec_parse_line(lines.last()) {
            Some(p) => m.insert(p.0, plat_set(p.1)),
            None => m,
        }
    }
}

/// Read one stored line. Returns the channel and its platform list
/// exactly when the line denotes one; the returned list is deduplicated
/// and never empty.
pub fn parse_registry_line(line: &str) -> (r: Option<(u64, Vec<String>)>)
    ensures
        r is Some <==> spec_parse_line(line@) is Some,
        r is Some ==> (r->0).0 == (spec_parse_line(line@)->0).0 && plat_set(
            views_of((r->0).1@),
        ) == plat_set((spec_parse_line(line@)->0).1) && (r->0).1@.len() > 0,
{
    let chars = str_chars(line);
    let marker = str_chars("channel:");
    proof {
        reveal_strlit("channel:");
    }
    if !is_match_at(&chars, &marker, 0) {
        proof {
            assert(spec_parse_line(line@) is None) by {
                if line@.len() >= 8 && line@.take(8) == "channel:"@ {
                    assert(line@.subrange(0, 8) == "channel:"@);
                }
            }
        }
        return None;
    }
    let ghost rest = line@.skip(8);
    proof {
        assert(line@.take(8) =~= line@.subrange(0, 8));
    }
    let nchars = chars.len();
    let bar = match find_char(&chars, '|', 8) {
        Some(b) => b,
        None => {
            proof {
                assert forall|i: int| 0 <= i < rest.len() implies rest[i] != '|' by {
                    assert(rest[i] == line@[i + 8]);
                }
                assert(single_bar_at(rest) is None);
            }
            return None;
        },
    };
    proof {
        assert(bar < nchars);
    }
    match find_char(&chars, '|', bar + 1) {
        Some(_) => {
            proof {
                assert(rest[bar - 8] == '|');
                assert(single_bar_at(rest) is None) by {
                    if single_bar_at(rest) is Some {
                        let i = choose|i: int|
                            0 <= i < rest.len() && rest[i] == '|' && (forall|j: int|
                                0 <= j < rest.len() && j != i ==> rest[j] != '|');
                        let b2 = choose|k: int|
                            bar + 1 <= k < line@.len() && line@[k] == '|';
                        assert(rest[b2 - 8] == '|');
                        assert(rest[bar - 8] == '|');
                        assert(b2 - 8 != bar - 8);
                        if i != bar - 8 {
                            assert(rest[bar - 8] != '|');
                        } else {
                            assert(rest[b2 - 8] != '|');
                        }
                    }
                }
            }
            return None;
        },
        None => {
        },
    }
    let ghost b = bar - 8;
    proof {
        assert(rest[b] == '|');
        assert forall|j: int| 0 <= j < rest.len() && j != b implies rest[j] != '|' by {
            assert(rest[j] == line@[j + 8]);
        }
        assert(single_bar_at(rest) is Some);
        let i = choose|i: int|
            0 <= i < rest.len() && rest[i] == '|' && (forall|j: int|
                0 <= j < rest.len() && j != i ==> rest[j] != '|');
        if i != b {
            assert(rest[b] != '|');
        }
        assert(single_bar_at(rest)->0 == b);
    }
    let id = match parse_u64_chars(&chars, 8, bar) {
        Some(id) => id,
        None => {
            proof {
                assert(rest.take(b) =~= line@.subrange(8, bar as int));
            }
            return None;
        },
    };
    proof {
        assert(rest.take(b) =~= line@.subrange(8, bar as int));
    }
    let tail = chars_string(&chars, bar + 1, chars.len());
    proof {
        assert(rest.skip(b + 1) =~= line@.subrange(bar + 1, line@.len() as int));
        assert(tail@ == rest.skip(b + 1));
    }
    let fields = parse_fields(tail.as_str());
    if fields.len() > 0 {
        proof {
            assert(csv_fields(rest.skip(b + 1)).len() > 0) by {
                assert(views_of(fields@)[0] == fields@[0]@);
                assert(views_of(fields@).contains(views_of(fields@)[0]));
            }
            assert_sets_equal!(
                plat_set(views_of(fields@)),
                plat_set((spec_parse_line(line@)->0).1)
            );
        }
        Some((id, fields))
    } else {
        proof {
            assert(csv_fields(rest.skip(b + 1)).len() == 0) by {
                if csv_fields(rest.skip(b + 1)).len() > 0 {
                    let x = csv_fields(rest.skip(b + 1))[0];
                    assert(csv_fields(rest.skip(b + 1)).contains(x));
                    assert(views_of(fields@).contains(x));
                }
            }
        }
        let d = default_platforms();
        proof {
            assert_sets_equal!(
                plat_set(views_of(d@)),
                plat_set((spec_parse_line(line@)->0).1)
            );
        }
        Some((id, d))
    }
}

impl Registry {
    /// The stored text this registry saves as, one line per channel.
    pub closed spec fn save_lines(self) -> Seq<Seq<char>> {
        spec_lines(self.entries@)
    }

    /// Every stored platform tag fits the line format.
    pub closed spec fn clean(self) -> bool {
        forall|i: int, j: int|
            0 <= i < self.entries@.len() && 0 <= j < self.entries@[i].platforms@.len()
                ==> tag_clean(#[trigger] self.entries@[i].platforms@[j]@)
    }

    /// Rebuild a registry from stored lines; lines that denote nothing
    /// are skipped, never fatal.
    pub fn from_lines(lines: &Vec<String>) -> (r: Registry)
        ensures
            r.wf(),
            r.as_map() == load_map(views_of(lines@)),
    {
        let mut r = Registry::new();
        let mut i: usize = 0;
        proof {
            assert(views_of(lines@).take(0) =~= Seq::<Seq<char>>::empty());
        }
        while i < lines.len()
            invariant
                0 <= i <= lines@.len(),
                r.wf(),
                r.as_map() == load_map(views_of(lines@).take(i as int)),
            decreases lines@.len() - i,
        {
            let ghost t = views_of(lines@).take(i + 1);
            proof {
                assert(t.drop_last() =~= views_of(lines@).take(i as int));
                assert(t.last() == views_of(lines@)[i as int]);
                assert(views_of(lines@)[i as int] == lines@[i as int]@);
            }
            match parse_registry_line(lines[i].as_str()) {
                Some((id, ps)) => {
                    r.put(id, ps);
                },
                None => {
                },
            }
            i = i + 1;
        }
        proof {
            assert(views_of(lines@).take(lines@.len() as int) =~= views_of(lines@));
        }
        r
    }

    /// Render the stored text for this registry.
    pub fn to_lines(&self) -> (r: Vec<String>)
        ensures
            views_of(r@) == self.save_lines(),
    {
        let mut out: Vec<String> = Vec::new();
        let mut i: usize = 0;
        proof {
            assert(views_of(out@) =~= spec_lines(self.entries@.take(0)));
        }
        while i < self.entries.len()
            invariant
                0 <= i <= self.entries@.len(),
                views_of(out@) == spec_lines(self.entries@.take(i as int)),
            decreases self.entries@.len() - i,
        {
            let e = &self.entries[i];
            let mut line: Vec<char> = Vec::new();
            push_str_chars(&mut line, "channel:");
            push_dec_u64(&mut line, e.channel_id);
            line.push('|');
            proof {
                reveal_strlit("|");
                assert(line@ =~= "channel:"@ + dec_digits(e.channel_id as nat) + "|"@);
            }
            push_joined(&mut line, &e.platforms, 0);
            proof {
                assert(views_of(e.platforms@).skip(0) =~= views_of(e.platforms@));
                assert(line@ =~= line_of(e.channel_id, views_of(e.platforms@)));
            }
            let s = chars_string(&line, 0, line.len());
            proof {
                assert(line@.subrange(0, line@.len() as int) =~= line@);
            }
            let ghost prev = out@;
            out.push(s);
            proof {
                let t = self.entries@.take(i + 1);
                assert(out@ == prev.push(s));
                assert(views_of(prev).len() == prev.len());
                assert(spec_lines(self.entries@.take(i as int)).len() == i);
                assert(prev.len() == i);
                assert(views_of(out@) =~= spec_lines(t)) by {
                    assert forall|k: int| 0 <= k < out@.len() implies views_of(out@)[k]
                        == spec_lines(t)[k] by {
                        assert(t[k] == self.entries@[k]);
                        if k < i {
                            assert(views_of(out@)[k] == prev[k]@);
                            assert(prev[k]@ == views_of(prev)[k]);
                            assert(self.entries@.take(i as int)[k] == self.entries@[k]);
                            assert(views_of(prev)[k] == spec_lines(
                                self.entries@.take(i as int),
                            )[k]);
                        } else {
                            assert(views_of(out@)[k] == s@);
                        }
                    }
                }
            }
            i = i + 1;
        }
        proof {
            assert(self.entries@.take(self.entries@.len() as int) =~= self.entries@);
        }
        out
    }
}

/// Append the comma-joined tags `ps[from..]`.
fn push_joined(v: &mut Vec<char>, ps: &Vec<String>, from: usize)
    requires
        from <= ps@.len(),
    ensures
        final(v)@ == old(v)@ + joined(views_of(ps@).skip(from as int)),
    decreases ps@.len() - from,
{
    let ghost vs = views_of(ps@).skip(from as int);
    if from < ps.len() {
        push_str_chars(v, ps[from].as_str());
        proof {
            assert(vs[0] == ps@[from as int]@);
        }
        if from + 1 < ps.len() {
            v.push(',');
            push_joined(v, ps, from + 1);
            proof {
                reveal_strlit(",");
                assert(vs.drop_first() =~= views_of(ps@).skip(from + 1));
                assert(vs.len() >= 2);
                assert(joined(vs) == vs[0] + ","@ + joined(vs.drop_first()));
                assert(v@ =~= old(v)@ + joined(vs));
            }
        } else {
            proof {
                assert(vs.len() == 1);
                assert(joined(vs) == vs[0]);
                assert(v@ =~= old(v)@ + joined(vs));
            }
        }
    } else {
        proof {
            assert(vs.len() == 0);
            assert(v@ =~= old(v)@ + joined(vs));
        }
    }
}


/// Scanning text free of commas only accumulates it.
proof fn lemma_csv_scan_text(t: Seq<char>, s: Seq<char>, cur: Seq<char>)
    requires
        forall|i: int| 0 <= i < t.len() ==> t[i] != ',',
    ensures
        csv_fields_from(t + s, cur) == csv_fields_from(s, cur + t),
    decreases t.len(),
{
    if t.len() == 0 {
        assert(t + s =~= s);
        assert(cur + t =~= cur);
    } else {
        let c = t[0];
        assert((t + s)[0] == c);
        assert((t + s).drop_first() =~= t.drop_first() + s);
        assert(forall|i: int| 0 <= i < t.drop_first().len() ==> t.drop_first()[i] != ',');
        lemma_csv_scan_text(t.drop_first(), s, cur.push(c));
        assert(cur.push(c) + t.drop_first() =~= cur + t);
    }
}

/// Joined clean tags hold no bar and no whitespace.
proof fn lemma_joined_chars(ps: Seq<Seq<char>>)
    requires
        forall|i: int| 0 <= i < ps.len() ==> tag_clean(#[trigger] ps[i]),
    ensures
        forall|k: int|
            0 <= k < joined(ps).len() ==> joined(ps)[k] != '|' && !is_ws(#[trigger] joined(ps)[k]),
    decreases ps.len(),
{
    if ps.len() == 0 {
    } else if ps.len() == 1 {
        assert forall|k: int|
            0 <= k < joined(ps).len() implies joined(ps)[k] != '|' && !is_ws(
            #[trigger] joined(ps)[k]) by {
            assert(joined(ps)[k] == ps[0][k]);
            assert(tag_clean(ps[0]));
        }
    } else {
        let rest = ps.drop_first();
        assert(forall|i: int| 0 <= i < rest.len() ==> tag_clean(#[trigger] rest[i]));
        lemma_joined_chars(rest);
        reveal_strlit(",");
        assert forall|k: int|
            0 <= k < joined(ps).len() implies joined(ps)[k] != '|' && !is_ws(
            #[trigger] joined(ps)[k]) by {
            let head = ps[0] + ","@;
            assert(joined(ps) == head + joined(rest));
            if k < head.len() {
                assert(joined(ps)[k] == head[k]);
                if k < ps[0].len() {
                    assert(head[k] == ps[0][k]);
                    assert(tag_clean(ps[0]));
                } else {
                    assert(head[k] == ',');
                }
            } else {
                assert(joined(ps)[k] == joined(rest)[k - head.len()]);
            }
        }
    }
}

/// A clean tag is already trimmed.
proof fn lemma_trimmed_clean(t: Seq<char>)
    requires
        tag_clean(t),
    ensures
        trimmed(t) == t,
{
    assert(!is_ws(t[0]));
    assert(!is_ws(t.last()));
}

/// Splitting what joining built gives the tags back.
proof fn lemma_csv_join(ps: Seq<Seq<char>>)
    requires
        ps.len() > 0,
        forall|i: int| 0 <= i < ps.len() ==> tag_clean(#[trigger] ps[i]),
    ensures
        csv_fields(joined(ps)) == ps,
    decreases ps.len(),
{
    if ps.len() == 1 {
        lemma_csv_scan_text(ps[0], Seq::empty(), Seq::empty());
        assert(ps[0] + Seq::<char>::empty() =~= ps[0]);
        assert(Seq::<char>::empty() + ps[0] =~= ps[0]);
        lemma_trimmed_clean(ps[0]);
        assert(csv_fields_from(Seq::<char>::empty(), ps[0]) == seq![ps[0]]);
        assert(seq![ps[0]] =~= ps);
    } else {
        let rest = ps.drop_first();
        assert(forall|i: int| 0 <= i < rest.len() ==> tag_clean(#[trigger] rest[i]));
        lemma_csv_join(rest);
        reveal_strlit(",");
        let m = ","@ + joined(rest);
        assert(joined(ps) =~= ps[0] + m);
        lemma_csv_scan_text(ps[0], m, Seq::empty());
        assert(Seq::<char>::empty() + ps[0] =~= ps[0]);
        assert(m[0] == ',');
        assert(m.drop_first() =~= joined(rest));
        lemma_trimmed_clean(ps[0]);
        assert(csv_fields_from(m, ps[0]) == seq![ps[0]] + csv_fields_from(
            joined(rest),
            Seq::empty(),
        ));
        assert(seq![ps[0]] + rest =~= ps);
    }
}

/// One stored line reads back as the channel it was written for.
proof fn lemma_line_round_trip(id: u64, ps: Seq<Seq<char>>)
    requires
        ps.len() > 0,
        forall|i: int| 0 <= i < ps.len() ==> tag_clean(#[trigger] ps[i]),
    ensures
        spec_parse_line(line_of(id, ps)) == Some((id, ps)),
{
    let s = line_of(id, ps);
    let dd = dec_digits(id as nat);
    let jj = joined(ps);
    reveal_strlit("channel:");
    reveal_strlit("|");
    lemma_dec_digits_all_digits(id as nat);
    lemma_dec_digits_val(id as nat);
    lemma_joined_chars(ps);
    assert(s.len() == 8 + dd.len() + 1 + jj.len());
    assert(s.take(8) =~= "channel:"@);
    let rest = s.skip(8);
    assert(rest =~= dd + "|"@ + jj);
    let b = dd.len() as int;
    assert(rest[b] == '|');
    assert forall|j: int| 0 <= j < rest.len() && j != b implies rest[j] != '|' by {
        if j < b {
            assert(rest[j] == dd[j]);
            assert(is_digit(dd[j]));
        } else {
            assert(rest[j] == jj[j - b - 1]);
        }
    }
    assert(single_bar_at(rest) is Some);
    let i = choose|i: int|
        0 <= i < rest.len() && rest[i] == '|' && (forall|j: int|
            0 <= j < rest.len() && j != i ==> rest[j] != '|');
    if i != b {
        assert(rest[b] != '|');
    }
    assert(single_bar_at(rest)->0 == b);
    assert(rest.take(b) =~= dd);
    assert(parses_u64(dd) == Some(id));
    assert(rest.skip(b + 1) =~= jj);
    lemma_csv_join(ps);
}

/// The saved lines of a list of nonempty, clean entries load back to
/// the very mapping the list denotes.
proof fn lemma_lines_load(entries: Seq<ChannelEntry>)
    requires
        forall|i: int| 0 <= i < entries.len() ==> entries[i].platforms@.len() > 0,
        forall|i: int, j: int|
            0 <= i < entries.len() && 0 <= j < entries[i].platforms@.len() ==> tag_clean(
                #[trigger] entries[i].platforms@[j]@,
            ),
    ensures
        load_map(spec_lines(entries)) == map_of(entries),
    decreases entries.len(),
{
    if entries.len() == 0 {
        assert(spec_lines(entries).len() == 0);
    } else {
        let d = entries.drop_last();
        assert(forall|i: int| 0 <= i < d.len() ==> d[i] == entries[i]);
        lemma_lines_load(d);
        let e = entries.last();
        let lines = spec_lines(entries);
        assert(lines.drop_last() =~= spec_lines(d));
        assert(lines.last() == line_of(e.channel_id, views_of(e.platforms@)));
        assert(views_of(e.platforms@).len() > 0);
        assert forall|j: int|
            0 <= j < views_of(e.platforms@).len() implies tag_clean(
            #[trigger] views_of(e.platforms@)[j]) by {
            assert(views_of(e.platforms@)[j] == e.platforms@[j]@);
            assert(entries[entries.len() - 1] == e);
        }
        lemma_line_round_trip(e.channel_id, views_of(e.platforms@));
        assert(load_map(lines) == load_map(spec_lines(d)).insert(
            e.channel_id,
            plat_set(views_of(e.platforms@)),
        ));
    }
}

/// Saving a registry and loading the lines back reproduces its
/// channel-to-platform-set mapping, for every registry whose tags fit
/// the line format.
pub proof fn lemma_save_load_round_trip(r: Registry)
    requires
        r.wf(),
        r.clean(),
    ensures
        load_map(r.save_lines()) == r.as_map(),
{
    lemma_lines_load(r.entries@);
}

} // verus!
