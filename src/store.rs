use vstd::prelude::*;
use crate::codec::{
    decode, encode, encode_spec, lemma_decode_encode, lemma_parse_cut, lemma_parse_extend, lemma_parse_prefix, parse_record, Command,
    CommandView, Decoded, Parse,
};
use crate::error::KvsError;
use std::collections::hash_map::DefaultHasher;
use std::collections::HashMap;
use std::hash::Hasher;
use vstd::std_specs::hash::DefaultHasherAdditionalSpecFns;
use vstd::utf8::encode_utf8;

verus! {

/// The hash under which the index files a key.
pub open spec fn key_hash(k: Seq<char>) -> u64 {
    DefaultHasher::spec_finish(seq![encode_utf8(k)])
}

fn hash_key(k: &String) -> (r: u64)
    ensures
        r == key_hash(k@),
{
    let mut h = DefaultHasher::new();
    h.write(k.as_str().as_bytes());
    assert(h@ =~= seq![encode_utf8(k@)]);
    h.finish()
}

/// Keeps every position `p` of `ps` but `gone`, with `last` renamed to `gone`.
fn retarget(ps: &Vec<usize>, gone: usize, last: usize) -> (r: Vec<usize>)
    ensures
        forall|x: usize|
            r@.contains(x) <==> ((ps@.contains(x) && x != gone && x != last) || (x == gone && gone
                != last && ps@.contains(last))),
{
    let mut r: Vec<usize> = Vec::new();
    let mut j: usize = 0;
    while j < ps.len()
        invariant
            j <= ps@.len(),
            forall|x: usize|
                r@.contains(x) <==> ((exists|k: int| 0 <= k < j && ps@[k] == x) && x != gone && x
                    != last) || (x == gone && gone != last && exists|k: int|
                    0 <= k < j && ps@[k] == last),
        decreases ps@.len() - j,
    {
        let p = ps[j];
        let ghost before = r@;
        if p == gone {
        } else if p == last {
            r.push(gone);
        } else {
            r.push(p);
        }
        proof {
            assert forall|x: usize|
                r@.contains(x) <==> ((exists|k: int| 0 <= k < j + 1 && ps@[k] == x) && x != gone
                    && x != last) || (x == gone && gone != last && exists|k: int|
                    0 <= k < j + 1 && ps@[k] == last) by {
                if r@.contains(x) && !before.contains(x) {
                    let k = choose|k: int| 0 <= k < r@.len() && r@[k] == x;
                    assert(k == before.len());
                }
                if before.contains(x) {
                    let k = choose|k: int| 0 <= k < before.len() && before[k] == x;
                    assert(r@[k] == x);
                }
                if (x == p && x != gone && x != last) || (x == gone && gone != last && p == last) {
                    assert(r@[before.len() as int] == x);
                }
            }
        }
        j = j + 1;
    }
    proof {
        assert forall|x: usize| ps@.contains(x) <==> exists|k: int| 0 <= k < ps@.len() && ps@[k] == x by {}
    }
    r
}

/// Active segment size, in bytes, above which the store compacts.
pub const THRESHOLD: u64 = 1048576;

/// Where the most recent `Put` record of a key lies: segment, byte offset and length.
#[derive(Clone, Copy, Debug, PartialEq, Eq, Structural)]
pub struct Locator {
    pub log_id: u64,
    pub offset: u64,
    pub length: u64,
}

/// The bytes that a locator names in the segment contents.
pub open spec fn slice_at(contents: Map<u64, Seq<u8>>, loc: Locator) -> Seq<u8> {
    contents[loc.log_id].subrange(loc.offset as int, loc.offset + loc.length)
}

/// The locator names, in a live segment, exactly one `Put` record of key `k` and value `v`.
pub open spec fn entry_holds(
    contents: Map<u64, Seq<u8>>,
    k: Seq<char>,
    loc: Locator,
    v: Seq<char>,
) -> bool {
    &&& contents.contains_key(loc.log_id)
    &&& loc.offset + loc.length <= contents[loc.log_id].len()
    &&& parse_record(slice_at(contents, loc)) == Parse::Done(
        CommandView::Put { key: k, value: v },
        loc.length as nat,
    )
}

/// The mapping after one record takes effect.
pub open spec fn apply(kv: Map<Seq<char>, Seq<char>>, c: CommandView) -> Map<Seq<char>, Seq<char>> {
    match c {
        CommandView::Put { key, value } => kv.insert(key, value),
        CommandView::Remove { key } => kv.remove(key),
    }
}

/// The mapping after every complete record at the front of `s` takes effect, in order.
pub open spec fn replay_spec(kv: Map<Seq<char>, Seq<char>>, s: Seq<u8>) -> Map<Seq<char>, Seq<char>>
    decreases s.len(),
{
    match parse_record(s) {
        Parse::Done(c, n) => if 0 < n <= s.len() {
            replay_spec(apply(kv, c), s.subrange(n as int, s.len() as int))
        } else {
            kv
        },
        _ => kv,
    }
}

/// The length of the run of complete records at the front of `s`.
pub open spec fn prefix_len(s: Seq<u8>) -> nat
    decreases s.len(),
{
    match parse_record(s) {
        Parse::Done(c, n) => if 0 < n <= s.len() {
            n + prefix_len(s.subrange(n as int, s.len() as int))
        } else {
            0
        },
        _ => 0,
    }
}

/// The run of complete records at the front of `s` ends in bytes that no
/// encoding produces (rather than in a record cut short).
pub open spec fn tail_malformed(s: Seq<u8>) -> bool
    decreases s.len(),
{
    match parse_record(s) {
        Parse::Done(c, n) => if 0 < n <= s.len() {
            tail_malformed(s.subrange(n as int, s.len() as int))
        } else {
            false
        },
        Parse::Malformed => true,
        Parse::Incomplete => false,
    }
}

/// The bytes of each locator, one after another.
pub open spec fn concat_slices(contents: Map<u64, Seq<u8>>, locs: Seq<Locator>) -> Seq<u8>
    decreases locs.len(),
{
    if locs.len() == 0 {
        Seq::empty()
    } else {
        concat_slices(contents, locs.drop_last()) + slice_at(contents, locs.last())
    }
}

/// The mapping that replaying the segments `ids`, in order, builds from `kv`.
pub open spec fn replay_segments(
    kv: Map<Seq<char>, Seq<char>>,
    contents: Map<u64, Seq<u8>>,
    ids: Seq<u64>,
) -> Map<Seq<char>, Seq<char>>
    decreases ids.len(),
{
    if ids.len() == 0 {
        kv
    } else {
        replay_spec(replay_segments(kv, contents, ids.drop_last()), contents[ids.last()])
    }
}

proof fn lemma_replay_segments_agree(
    kv: Map<Seq<char>, Seq<char>>,
    c1: Map<u64, Seq<u8>>,
    c2: Map<u64, Seq<u8>>,
    ids: Seq<u64>,
)
    requires
        forall|i: int| 0 <= i < ids.len() ==> c1[ids[i]] == c2[ids[i]],
    ensures
        replay_segments(kv, c1, ids) == replay_segments(kv, c2, ids),
    decreases ids.len(),
{
    if ids.len() > 0 {
        lemma_replay_segments_agree(kv, c1, c2, ids.drop_last());
        assert(c1[ids.last()] == c2[ids[ids.len() - 1]]);
    }
}

/// Replaying a run of complete records followed by one more record gives
/// what the run gives, with that record applied.
pub proof fn lemma_replay_append(kv: Map<Seq<char>, Seq<char>>, a: Seq<u8>, b: Seq<u8>, c: CommandView)
    requires
        prefix_len(a) == a.len(),
        parse_record(b) == Parse::Done(c, b.len()),
        b.len() > 0,
    ensures
        replay_spec(kv, a + b) == apply(replay_spec(kv, a), c),
        prefix_len(a + b) == a.len() + b.len(),
    decreases a.len(),
{
    if a.len() == 0 {
        assert(a + b =~= b);
        assert(b.subrange(b.len() as int, b.len() as int) =~= Seq::<u8>::empty());
        assert(parse_record(Seq::<u8>::empty()) is Incomplete);
        assert(replay_spec(kv, a) == kv);
        assert(replay_spec(apply(kv, c), Seq::<u8>::empty()) == apply(kv, c));
        assert(prefix_len(Seq::<u8>::empty()) == 0);
    } else {
        assert(parse_record(a) is Done);
        lemma_parse_prefix(a, a.len() as int);
        let n = parse_record(a)->Done_1;
        let c1 = parse_record(a)->Done_0;
        lemma_parse_extend(a, b);
        let rest = a.subrange(n as int, a.len() as int);
        assert((a + b).subrange(n as int, (a + b).len() as int) =~= rest + b);
        lemma_replay_append(apply(kv, c1), rest, b, c);
    }
}

proof fn lemma_persists_append(old_s: StoreState, new_s: StoreState, b: Seq<u8>, c: CommandView)
    requires
        old_s.inv_core(),
        old_s.segments@.len() > 0,
        new_s.segments@ == old_s.segments@,
        new_s.contents@ == old_s.contents@.insert(
            old_s.segments@.last(),
            old_s.contents@[old_s.segments@.last()] + b,
        ),
        parse_record(b) == Parse::Done(c, b.len()),
        b.len() > 0,
        new_s.kv@ == apply(old_s.kv@, c),
    ensures
        new_s.persists(),
{
    let ids = old_s.segments@;
    let last = ids.last();
    assert(ids.contains(last)) by {
        assert(ids[ids.len() - 1] == last);
    }
    let before = replay_segments(Map::empty(), old_s.contents@, ids.drop_last());
    lemma_replay_append(before, old_s.contents@[last], b, c);
    assert forall|i: int| 0 <= i < ids.drop_last().len() implies old_s.contents@[ids.drop_last()[i]]
        == new_s.contents@[ids.drop_last()[i]] by {
        assert(ids[i] < ids[ids.len() - 1]);
    }
    lemma_replay_segments_agree(Map::empty(), old_s.contents@, new_s.contents@, ids.drop_last());
    assert forall|id: u64| new_s.contents@.contains_key(id) implies prefix_len(
        #[trigger] new_s.contents@[id],
    ) == new_s.contents@[id].len() by {
        if id != last {
            assert(old_s.contents@.contains_key(id));
        }
    }
}

proof fn lemma_persists_new_segment(old_s: StoreState, new_s: StoreState, id: u64)
    requires
        old_s.inv_core(),
        !old_s.contents@.contains_key(id),
        new_s.segments@ == old_s.segments@.push(id),
        new_s.contents@ == old_s.contents@.insert(id, Seq::empty()),
        new_s.kv@ == old_s.kv@,
    ensures
        new_s.persists(),
{
    let ids = old_s.segments@;
    assert(new_s.segments@.drop_last() =~= ids);
    assert forall|i: int| 0 <= i < ids.len() implies old_s.contents@[ids[i]]
        == new_s.contents@[ids[i]] by {
        assert(ids.contains(ids[i]));
    }
    lemma_replay_segments_agree(Map::empty(), old_s.contents@, new_s.contents@, ids);
    assert(parse_record(Seq::<u8>::empty()) is Incomplete);
    assert forall|id2: u64| new_s.contents@.contains_key(id2) implies prefix_len(
        #[trigger] new_s.contents@[id2],
    ) == new_s.contents@[id2].len() by {
        if id2 != id {
            assert(old_s.contents@.contains_key(id2));
        }
    }
}

/// Cutting a segment back to its run of complete records leaves what a
/// replay builds unchanged, and the cut segment then replays to its end.
pub proof fn lemma_truncated_replay(kv: Map<Seq<char>, Seq<char>>, s: Seq<u8>)
    ensures
        prefix_len(s) <= s.len(),
        replay_spec(kv, s.subrange(0, prefix_len(s) as int)) == replay_spec(kv, s),
        prefix_len(s.subrange(0, prefix_len(s) as int)) == prefix_len(s),
        !tail_malformed(s.subrange(0, prefix_len(s) as int)),
    decreases s.len(),
{
    let p = prefix_len(s) as int;
    let t = s.subrange(0, p);
    match parse_record(s) {
        Parse::Done(c, n) => {
            if 0 < n <= s.len() {
                let rest = s.subrange(n as int, s.len() as int);
                lemma_truncated_replay(apply(kv, c), rest);
                lemma_parse_prefix(s, p);
                assert(t.subrange(n as int, p) =~= rest.subrange(0, prefix_len(rest) as int));
            } else {
                assert(t =~= Seq::<u8>::empty());
            }
        },
        _ => {
            assert(t =~= Seq::<u8>::empty());
        },
    }
}

/// A segment that replays to its end, with its last byte torn off, replays
/// all its records but the last, and ends in a record cut short rather than
/// in bytes that no encoding produces: reopening accepts it as the last
/// segment.
pub proof fn lemma_torn_tail(s: Seq<u8>)
    requires
        s.len() > 0,
        prefix_len(s) == s.len(),
    ensures
        !tail_malformed(s.drop_last()),
    decreases s.len(),
{
    let t = s.drop_last();
    match parse_record(s) {
        Parse::Done(c, n) => {
            if 0 < n <= s.len() {
                let rest = s.subrange(n as int, s.len() as int);
                if n < s.len() {
                    lemma_parse_prefix(s, s.len() - 1);
                    assert(s.subrange(0, s.len() - 1) == t);
                    assert(t.subrange(n as int, t.len() as int) =~= rest.drop_last());
                    lemma_torn_tail(rest);
                } else {
                    lemma_parse_cut(s, s.len() - 1);
                    assert(s.subrange(0, s.len() - 1) == t);
                }
            }
        },
        _ => {},
    }
}

/// The sum of the lengths that the locators name.
pub open spec fn total_len(locs: Seq<Locator>) -> nat
    decreases locs.len(),
{
    if locs.len() == 0 {
        0
    } else {
        total_len(locs.drop_last()) + locs.last().length as nat
    }
}

/// A get after a put returns the value put: once `put(k, v)` has made the
/// mapping `after`, the locator that `locate` gives for `k` names bytes
/// that `decode_value` can only decode to `v`.
pub proof fn lemma_get_after_put(
    before: Map<Seq<char>, Seq<char>>,
    after: Map<Seq<char>, Seq<char>>,
    k: Seq<char>,
    v: Seq<char>,
    contents: Map<u64, Seq<u8>>,
    loc: Locator,
    w: Seq<char>,
)
    requires
        after == before.insert(k, v),
        entry_holds(contents, k, loc, after[k]),
        parse_record(slice_at(contents, loc)) == Parse::Done(
            CommandView::Put { key: k, value: w },
            slice_at(contents, loc).len(),
        ),
    ensures
        w == v,
{
}

/// Putting `v1` then `v2` under one key leaves `v2`, whatever came before.
pub proof fn lemma_overwrite(
    before: Map<Seq<char>, Seq<char>>,
    k: Seq<char>,
    v1: Seq<char>,
    v2: Seq<char>,
)
    ensures
        before.insert(k, v1).insert(k, v2).contains_key(k),
        before.insert(k, v1).insert(k, v2)[k] == v2,
        before.insert(k, v1).insert(k, v2) == before.insert(k, v2),
{
    assert(before.insert(k, v1).insert(k, v2) =~= before.insert(k, v2));
}

/// After a remove of `k`, and puts and removes of other keys only, `k` is
/// absent, so `locate` finds nothing for it.
pub proof fn lemma_absent_after_remove(
    before: Map<Seq<char>, Seq<char>>,
    k: Seq<char>,
    others: Seq<CommandView>,
)
    requires
        forall|i: int|
            0 <= i < others.len() ==> match #[trigger] others[i] {
                CommandView::Put { key, value: _ } => key != k,
                CommandView::Remove { key: _ } => true,
            },
    ensures
        !apply_all(before.remove(k), others).contains_key(k),
    decreases others.len(),
{
    if others.len() > 0 {
        lemma_absent_after_remove(before, k, others.drop_last());
        assert(others.last() == others[others.len() - 1]);
    }
}

/// The mapping after each command of `cs` takes effect, in order.
pub open spec fn apply_all(kv: Map<Seq<char>, Seq<char>>, cs: Seq<CommandView>) -> Map<Seq<char>, Seq<char>>
    decreases cs.len(),
{
    if cs.len() == 0 {
        kv
    } else {
        apply(apply_all(kv, cs.drop_last()), cs.last())
    }
}

proof fn lemma_slots_same_keys(old_s: StoreState, new_s: StoreState)
    requires
        old_s.slots_ok(),
        new_s.slots@ == old_s.slots@,
        new_s.index@.len() == old_s.index@.len(),
        forall|j: int| 0 <= j < new_s.index@.len() ==> #[trigger] new_s.index@[j].0@ == old_s.index@[j].0@,
    ensures
        new_s.slots_ok(),
{
    assert forall|i: int| 0 <= i < new_s.index@.len() implies {
        &&& new_s.slots@.contains_key(key_hash(#[trigger] new_s.index@[i].0@))
        &&& new_s.slots@[key_hash(new_s.index@[i].0@)]@.contains(i as usize)
    } by {
        assert(new_s.index@[i].0@ == old_s.index@[i].0@);
    }
    assert forall|h: u64, p: usize|
        new_s.slots@.contains_key(h) && #[trigger] new_s.slots@[h]@.contains(p) implies p
            < new_s.index@.len() && key_hash(new_s.index@[p as int].0@) == h by {
        assert(old_s.slots@[h]@.contains(p));
        assert(new_s.index@[p as int].0@ == old_s.index@[p as int].0@);
    }
}

proof fn lemma_total_len_prefix(locs: Seq<Locator>, i: int)
    requires
        0 <= i <= locs.len(),
    ensures
        total_len(locs.subrange(0, i)) <= total_len(locs),
    decreases locs.len() - i,
{
    if i < locs.len() {
        lemma_total_len_prefix(locs, i + 1);
        assert(locs.subrange(0, i + 1).drop_last() =~= locs.subrange(0, i));
    } else {
        assert(locs.subrange(0, i) =~= locs);
    }
}

/// What the caller does on disk to carry out a compaction: create segment
/// `target`, append to it the bytes of each locator of `copies` in order,
/// then delete every segment of `retired`, then create the empty segment
/// `next_active`.
pub struct CompactionPlan {
    pub target: u64,
    pub copies: Vec<Locator>,
    pub retired: Vec<u64>,
    pub next_active: u64,
}

/// The state of a log-structured store: the ids of its segments, the active
/// one, and an index from each live key to its locator, with the positions
/// of the index filed by key hash for lookups. The segment contents and the
/// mapping they describe are kept as ghost values.
pub struct StoreState {
    segments: Vec<u64>,
    active_size: u64,
    index: Vec<(String, Locator)>,
    slots: HashMap<u64, Vec<usize>>,
    contents: Ghost<Map<u64, Seq<u8>>>,
    kv: Ghost<Map<Seq<char>, Seq<char>>>,
}

proof fn lemma_installed(
    old_s: StoreState,
    new_s: StoreState,
    e: (String, Locator),
    v: Seq<char>,
    pos: int,
)
    requires
        old_s.inv_core(),
        new_s.segments@ == old_s.segments@,
        new_s.kv@ == old_s.kv@.insert(e.0@, v),
        entry_holds(new_s.contents@, e.0@, e.1, v),
        forall|i: int|
            0 <= i < old_s.index@.len() ==> entry_holds(
                new_s.contents@,
                old_s.index@[i].0@,
                old_s.index@[i].1,
                old_s.kv@[old_s.index@[i].0@],
            ),
        forall|id: u64| new_s.contents@.contains_key(id) <==> old_s.contents@.contains_key(id),
        new_s.segments@.len() > 0 ==> new_s.contents@[new_s.segments@.last()].len()
            == new_s.active_size,
        (0 <= pos < old_s.index@.len() && old_s.index@[pos].0@ == e.0@ && new_s.index@
            == old_s.index@.update(pos, e)) || (pos == -1 && !old_s.kv@.contains_key(e.0@)
            && new_s.index@ == old_s.index@.push(e)),
        new_s.persists(),
    ensures
        new_s.inv_core(),
{
    let k = e.0@;
    assert forall|i: int| 0 <= i < new_s.index@.len() implies {
        &&& new_s.kv@.contains_key(#[trigger] new_s.index@[i].0@)
        &&& entry_holds(new_s.contents@, new_s.index@[i].0@, new_s.index@[i].1, new_s.kv@[new_s.index@[i].0@])
    } by {
        if i != pos && i < old_s.index@.len() {
            assert(old_s.kv@.contains_key(old_s.index@[i].0@));
            if pos == -1 {
                assert(old_s.index@[i].0@ != k);
            } else {
                assert(old_s.index@[i].0@ != k);
            }
        }
    }
    assert forall|k2: Seq<char>| new_s.kv@.contains_key(k2) implies exists|i: int|
        0 <= i < new_s.index@.len() && #[trigger] new_s.index@[i].0@ == k2 by {
        if k2 == k {
            if pos == -1 {
                assert(new_s.index@[old_s.index@.len() as int].0@ == k2);
            } else {
                assert(new_s.index@[pos].0@ == k2);
            }
        } else {
            let i = choose|i: int| 0 <= i < old_s.index@.len() && #[trigger] old_s.index@[i].0@ == k2;
            assert(new_s.index@[i].0@ == k2);
        }
    }
    assert forall|i: int, j: int| 0 <= i < j < new_s.index@.len() implies new_s.index@[i].0@
        != new_s.index@[j].0@ by {
        if pos == -1 && j == old_s.index@.len() {
            assert(old_s.kv@.contains_key(old_s.index@[i].0@));
        }
    }
}

proof fn lemma_same_index(old_s: StoreState, new_s: StoreState)
    requires
        old_s.inv_core(),
        new_s.segments@ == old_s.segments@,
        new_s.kv@ == old_s.kv@,
        new_s.index@ == old_s.index@,
        forall|i: int|
            0 <= i < old_s.index@.len() ==> entry_holds(
                new_s.contents@,
                old_s.index@[i].0@,
                old_s.index@[i].1,
                old_s.kv@[old_s.index@[i].0@],
            ),
        forall|id: u64| new_s.contents@.contains_key(id) <==> old_s.contents@.contains_key(id),
        new_s.segments@.len() > 0 ==> new_s.contents@[new_s.segments@.last()].len()
            == new_s.active_size,
        new_s.persists(),
    ensures
        new_s.inv_core(),
{
}

proof fn lemma_same_index_inv(old_s: StoreState, new_s: StoreState)
    requires
        old_s.inv_core(),
        new_s.kv@ == old_s.kv@,
        new_s.index@ == old_s.index@,
        forall|i: int|
            0 <= i < old_s.index@.len() ==> entry_holds(
                new_s.contents@,
                old_s.index@[i].0@,
                old_s.index@[i].1,
                old_s.kv@[old_s.index@[i].0@],
            ),
        forall|i: int, j: int|
            0 <= i < j < new_s.segments@.len() ==> new_s.segments@[i] < new_s.segments@[j],
        forall|id: u64| new_s.contents@.contains_key(id) <==> new_s.segments@.contains(id),
        new_s.segments@.len() > 0 ==> new_s.contents@[new_s.segments@.last()].len()
            == new_s.active_size,
        new_s.persists(),
    ensures
        new_s.inv_core(),
{
}

#[verifier::rlimit(40)]
/// Each of the first `i` entries of `new_idx` names, in `data`, the bytes
/// that the entry of `old_idx` at the same place names in `contents`.
#[verifier::opaque]
spec fn moved_prefix(
    data: Seq<u8>,
    contents: Map<u64, Seq<u8>>,
    target: u64,
    new_idx: Seq<(String, Locator)>,
    old_idx: Seq<(String, Locator)>,
    i: int,
) -> bool {
    forall|j: int|
        0 <= j < i ==> {
            &&& #[trigger] new_idx[j].0@ == old_idx[j].0@
            &&& new_idx[j].1.log_id == target
            &&& new_idx[j].1.length == old_idx[j].1.length
            &&& new_idx[j].1.offset + new_idx[j].1.length <= data.len()
            &&& data.subrange(
                new_idx[j].1.offset as int,
                new_idx[j].1.offset + new_idx[j].1.length,
            ) == slice_at(contents, old_idx[j].1)
        }
}

proof fn lemma_moved_step(
    data: Seq<u8>,
    piece: Seq<u8>,
    contents: Map<u64, Seq<u8>>,
    target: u64,
    new_idx: Seq<(String, Locator)>,
    new_idx2: Seq<(String, Locator)>,
    old_idx: Seq<(String, Locator)>,
    i: int,
)
    requires
        moved_prefix(data, contents, target, new_idx, old_idx, i),
        0 <= i < old_idx.len(),
        new_idx.len() == i,
        new_idx2.len() == i + 1,
        new_idx2.drop_last() == new_idx,
        new_idx2[i].0@ == old_idx[i].0@,
        new_idx2[i].1 == (Locator { log_id: target, offset: data.len() as u64, length: old_idx[i].1.length }),
        data.len() + old_idx[i].1.length <= u64::MAX,
        piece == slice_at(contents, old_idx[i].1),
        piece.len() == old_idx[i].1.length,
    ensures
        moved_prefix(data + piece, contents, target, new_idx2, old_idx, i + 1),
{
    reveal(moved_prefix);
    let d2 = data + piece;
    assert forall|j: int| 0 <= j < i + 1 implies {
        &&& #[trigger] new_idx2[j].0@ == old_idx[j].0@
        &&& new_idx2[j].1.log_id == target
        &&& new_idx2[j].1.length == old_idx[j].1.length
        &&& new_idx2[j].1.offset + new_idx2[j].1.length <= d2.len()
        &&& d2.subrange(
            new_idx2[j].1.offset as int,
            new_idx2[j].1.offset + new_idx2[j].1.length,
        ) == slice_at(contents, old_idx[j].1)
    } by {
        if j < i {
            assert(new_idx2[j] == new_idx[j]);
            assert(new_idx[j].0@ == old_idx[j].0@);
            assert(d2.subrange(
                new_idx2[j].1.offset as int,
                new_idx2[j].1.offset + new_idx2[j].1.length,
            ) =~= data.subrange(
                new_idx[j].1.offset as int,
                new_idx[j].1.offset + new_idx[j].1.length,
            ));
        } else {
            assert(d2.subrange(data.len() as int, (data.len() + piece.len()) as int) =~= piece);
        }
    }
}

proof fn lemma_rewritten(old_s: StoreState, new_s: StoreState, target: u64, data: Seq<u8>)
    requires
        old_s.inv_core(),
        target < u64::MAX,
        new_s.kv@ == old_s.kv@,
        new_s.segments@ == seq![target, (target + 1) as u64],
        new_s.contents@ == Map::<u64, Seq<u8>>::empty().insert(target, data).insert(
            (target + 1) as u64,
            Seq::empty(),
        ),
        new_s.active_size == 0,
        new_s.index@.len() == old_s.index@.len(),
        moved_prefix(data, old_s.contents@, target, new_s.index@, old_s.index@, old_s.index@.len() as int),
        new_s.persists(),
    ensures
        new_s.inv_core(),
        forall|j: int| 0 <= j < new_s.index@.len() ==> #[trigger] new_s.index@[j].0@ == old_s.index@[j].0@,
{
    reveal(moved_prefix);
    assert forall|id: u64| new_s.contents@.contains_key(id) <==> new_s.segments@.contains(id) by {
        if id == target {
            assert(new_s.segments@[0] == id);
        }
        if id == target + 1 {
            assert(new_s.segments@[1] == id);
        }
    }
    assert forall|i: int| 0 <= i < new_s.index@.len() implies {
        &&& new_s.kv@.contains_key(#[trigger] new_s.index@[i].0@)
        &&& entry_holds(new_s.contents@, new_s.index@[i].0@, new_s.index@[i].1, new_s.kv@[new_s.index@[i].0@])
    } by {
        assert(new_s.index@[i].0@ == old_s.index@[i].0@);
        assert(old_s.kv@.contains_key(old_s.index@[i].0@));
    }
    assert forall|k2: Seq<char>| new_s.kv@.contains_key(k2) implies exists|i: int|
        0 <= i < new_s.index@.len() && #[trigger] new_s.index@[i].0@ == k2 by {
        let o = choose|o: int| 0 <= o < old_s.index@.len() && #[trigger] old_s.index@[o].0@ == k2;
        assert(new_s.index@[o].0@ == k2);
    }
    assert forall|i: int, j: int| 0 <= i < j < new_s.index@.len() implies new_s.index@[i].0@
        != new_s.index@[j].0@ by {
        assert(new_s.index@[i].0@ == old_s.index@[i].0@);
        assert(new_s.index@[j].0@ == old_s.index@[j].0@);
    }
}

#[verifier::spinoff_prover]
#[verifier::rlimit(100)]
proof fn lemma_evicted(old_s: StoreState, new_s: StoreState, pos: int)
    requires
        old_s.inv_core(),
        0 <= pos < old_s.index@.len(),
        new_s.segments@ == old_s.segments@,
        new_s.kv@ == old_s.kv@.remove(old_s.index@[pos].0@),
        new_s.index@ == old_s.index@.update(pos, old_s.index@.last()).drop_last(),
        forall|i: int|
            0 <= i < old_s.index@.len() ==> entry_holds(
                new_s.contents@,
                old_s.index@[i].0@,
                old_s.index@[i].1,
                old_s.kv@[old_s.index@[i].0@],
            ),
        forall|id: u64| new_s.contents@.contains_key(id) <==> old_s.contents@.contains_key(id),
        new_s.segments@.len() > 0 ==> new_s.contents@[new_s.segments@.last()].len()
            == new_s.active_size,
        new_s.persists(),
    ensures
        new_s.inv_core(),
{
    let k = old_s.index@[pos].0@;
    let n = old_s.index@.len() as int;
    assert forall|i: int| 0 <= i < new_s.index@.len() implies {
        &&& new_s.kv@.contains_key(#[trigger] new_s.index@[i].0@)
        &&& entry_holds(new_s.contents@, new_s.index@[i].0@, new_s.index@[i].1, new_s.kv@[new_s.index@[i].0@])
    } by {
        let o = if i == pos { n - 1 } else { i };
        assert(new_s.index@[i] == old_s.index@[o]);
        assert(old_s.kv@.contains_key(old_s.index@[o].0@));
        assert(old_s.index@[o].0@ != k);
    }
    assert forall|k2: Seq<char>| new_s.kv@.contains_key(k2) implies exists|i: int|
        0 <= i < new_s.index@.len() && #[trigger] new_s.index@[i].0@ == k2 by {
        let o = choose|o: int| 0 <= o < old_s.index@.len() && #[trigger] old_s.index@[o].0@ == k2;
        assert(o != pos);
        let i = if o == n - 1 { pos } else { o };
        assert(new_s.index@[i] == old_s.index@[o]);
    }
    assert forall|i: int, j: int| 0 <= i < j < new_s.index@.len() implies new_s.index@[i].0@
        != new_s.index@[j].0@ by {
        let oi = if i == pos { n - 1 } else { i };
        let oj = if j == pos { n - 1 } else { j };
        assert(new_s.index@[i] == old_s.index@[oi]);
        assert(new_s.index@[j] == old_s.index@[oj]);
    }
}

/// The value of the `Put` record of `key` that `bytes` hold from first to
/// last byte; `Corrupt` where they hold anything else.
pub fn decode_value(key: &String, bytes: &[u8]) -> (r: Result<String, KvsError>)
    ensures
        r is Ok <==> (parse_record(bytes@) matches Parse::Done(CommandView::Put { key: k, value: _ }, n)
            && k == key@ && n == bytes@.len()),
        r matches Ok(v) ==> parse_record(bytes@) == Parse::Done(
            CommandView::Put { key: key@, value: v@ },
            bytes@.len(),
        ),
        r matches Err(e) ==> e == KvsError::Corrupt,
{
    proof {
        assert(bytes@.subrange(0, bytes@.len() as int) =~= bytes@);
    }
    match decode(bytes, 0) {
        Decoded::Record(Command::Put { key: k, value }, n) => {
            if n == bytes.len() && k == *key {
                Ok(value)
            } else {
                Err(KvsError::Corrupt)
            }
        },
        _ => Err(KvsError::Corrupt),
    }
}

impl StoreState {
    /// The mapping that the store holds.
    pub closed spec fn map(&self) -> Map<Seq<char>, Seq<char>> {
        self.kv@
    }

    /// What each live segment holds, by id.
    pub closed spec fn contents(&self) -> Map<u64, Seq<u8>> {
        self.contents@
    }

    /// The segment ids, ascending.
    pub closed spec fn segment_ids(&self) -> Seq<u64> {
        self.segments@
    }

    /// Each live key with its locator, in the order of the index.
    pub closed spec fn live(&self) -> Seq<(Seq<char>, Locator)> {
        self.index@.map_values(|e: (String, Locator)| (e.0@, e.1))
    }

    /// The segment that takes appends: the one with the largest id.
    pub open spec fn active(&self) -> u64 {
        self.segment_ids().last()
    }

    /// Every segment replays to its end, and replaying the segments in id
    /// order rebuilds the mapping.
    pub closed spec fn persists(&self) -> bool {
        &&& forall|id: u64|
            self.contents@.contains_key(id) ==> prefix_len(#[trigger] self.contents@[id])
                == self.contents@[id].len()
        &&& replay_segments(Map::empty(), self.contents@, self.segments@) == self.kv@
    }

    /// Each position of the index is filed under the hash of its key, and
    /// only there.
    pub closed spec fn slots_ok(&self) -> bool {
        &&& forall|i: int|
            0 <= i < self.index@.len() ==> {
                &&& self.slots@.contains_key(key_hash(#[trigger] self.index@[i].0@))
                &&& self.slots@[key_hash(self.index@[i].0@)]@.contains(i as usize)
            }
        &&& forall|h: u64, p: usize|
            self.slots@.contains_key(h) && #[trigger] self.slots@[h]@.contains(p) ==> p
                < self.index@.len() && key_hash(self.index@[p as int].0@) == h
    }

    pub closed spec fn inv(&self) -> bool {
        self.inv_core() && self.slots_ok()
    }

    pub closed spec fn inv_core(&self) -> bool {
        &&& self.persists()
        &&& forall|i: int, j: int|
            0 <= i < j < self.segments@.len() ==> self.segments@[i] < self.segments@[j]
        &&& forall|id: u64| self.contents@.contains_key(id) <==> self.segments@.contains(id)
        &&& self.segments@.len() > 0 ==> self.contents@[self.segments@.last()].len()
            == self.active_size
        &&& forall|i: int, j: int|
            0 <= i < j < self.index@.len() ==> self.index@[i].0@ != self.index@[j].0@
        &&& forall|k: Seq<char>|
            self.kv@.contains_key(k) ==> exists|i: int|
                0 <= i < self.index@.len() && #[trigger] self.index@[i].0@ == k
        &&& forall|i: int|
            0 <= i < self.index@.len() ==> {
                &&& self.kv@.contains_key(#[trigger] self.index@[i].0@)
                &&& entry_holds(
                    self.contents@,
                    self.index@[i].0@,
                    self.index@[i].1,
                    self.kv@[self.index@[i].0@],
                )
            }
    }

    /// A store that is open: its invariant holds and it has an active segment.
    pub open spec fn wf(&self) -> bool {
        self.inv() && self.segment_ids().len() > 0
    }

    /// Reopening keeps the mapping: every segment replays to its end, so
    /// recovery cuts nothing off, and replaying the segments in id order
    /// rebuilds exactly the mapping that the store holds.
    pub proof fn lemma_reopen(&self)
        requires
            self.inv(),
        ensures
            forall|id: u64|
                self.contents().contains_key(id) ==> prefix_len(#[trigger] self.contents()[id])
                    == self.contents()[id].len(),
            replay_segments(Map::empty(), self.contents(), self.segment_ids()) == self.map(),
    {
    }

    /// The live entries are the keys of the mapping, each once, and each
    /// names the `Put` record of its key and current value.
    pub proof fn lemma_live_entries(&self)
        requires
            self.inv(),
        ensures
            forall|k: Seq<char>|
                self.map().contains_key(k) <==> exists|j: int|
                    0 <= j < self.live().len() && #[trigger] self.live()[j].0 == k,
            forall|i: int, j: int|
                0 <= i < j < self.live().len() ==> self.live()[i].0 != self.live()[j].0,
            forall|j: int|
                0 <= j < self.live().len() ==> entry_holds(
                    self.contents(),
                    #[trigger] self.live()[j].0,
                    self.live()[j].1,
                    self.map()[self.live()[j].0],
                ),
    {
        assert forall|k: Seq<char>| self.map().contains_key(k) <==> exists|j: int|
            0 <= j < self.live().len() && #[trigger] self.live()[j].0 == k by {
            if self.map().contains_key(k) {
                let j = choose|j: int| 0 <= j < self.index@.len() && #[trigger] self.index@[j].0@ == k;
                assert(self.live()[j].0 == k);
            }
            if exists|j: int| 0 <= j < self.live().len() && #[trigger] self.live()[j].0 == k {
                let j = choose|j: int| 0 <= j < self.live().len() && #[trigger] self.live()[j].0 == k;
                assert(self.index@[j].0@ == k);
            }
        }
        assert forall|j: int| 0 <= j < self.live().len() implies entry_holds(
            self.contents(),
            #[trigger] self.live()[j].0,
            self.live()[j].1,
            self.map()[self.live()[j].0],
        ) by {
            assert(self.live()[j].0 == self.index@[j].0@);
            assert(self.kv@.contains_key(self.index@[j].0@));
        }
    }

    /// A state with no segments, from which `replay` rebuilds a store.
    pub fn new() -> (r: Self)
        ensures
            r.inv(),
            r.map() == Map::<Seq<char>, Seq<char>>::empty(),
            r.contents() == Map::<u64, Seq<u8>>::empty(),
            r.segment_ids() == Seq::<u64>::empty(),
    {
        broadcast use vstd::std_specs::hash::group_hash_axioms;

        StoreState {
            segments: Vec::new(),
            active_size: 0,
            index: Vec::new(),
            slots: HashMap::new(),
            contents: Ghost(Map::empty()),
            kv: Ghost(Map::empty()),
        }
    }

    /// The size in bytes of the active segment.
    pub fn active_size(&self) -> (r: u64)
        requires
            self.wf(),
        ensures
            r == self.contents()[self.active()].len(),
    {
        self.active_size
    }

    /// The id of the active segment.
    pub fn active_id(&self) -> (r: u64)
        requires
            self.wf(),
        ensures
            r == self.active(),
    {
        self.segments[self.segments.len() - 1]
    }

    #[verifier::spinoff_prover]
    #[verifier::rlimit(100)]
    fn find(&self, key: &String) -> (r: Option<usize>)
        requires
            self.inv(),
        ensures
            r is Some <==> self.kv@.contains_key(key@),
            r matches Some(i) ==> i < self.index@.len() && self.index@[i as int].0@ == key@,
    {
        broadcast use vstd::std_specs::hash::group_hash_axioms;

        let h = hash_key(key);
        let n = self.index.len();
        let ps = match self.slots.get(&h) {
            Some(ps) => ps,
            None => {
                proof {
                    if self.kv@.contains_key(key@) {
                        let i = choose|i: int| 0 <= i < self.index@.len() && #[trigger] self.index@[i].0@ == key@;
                        assert(self.slots@.contains_key(key_hash(self.index@[i].0@)));
                    }
                }
                return None;
            },
        };
        let mut j: usize = 0;
        while j < ps.len()
            invariant
                self.inv(),
                self.slots@.contains_key(h),
                ps@ == self.slots@[h]@,
                h == key_hash(key@),
                n == self.index@.len(),
                j <= ps@.len(),
                forall|jj: int| 0 <= jj < j ==> self.index@[ps@[jj] as int].0@ != key@,
            decreases ps@.len() - j,
        {
            let p = ps[j];
            proof {
                assert(self.slots@[h]@.contains(p));
            }
            if self.index[p].0 == *key {
                proof {
                    assert(self.kv@.contains_key(self.index@[p as int].0@));
                }
                return Some(p);
            }
            j = j + 1;
        }
        proof {
            if self.kv@.contains_key(key@) {
                let i = choose|i: int| 0 <= i < self.index@.len() && #[trigger] self.index@[i].0@ == key@;
                let iu = i as usize;
                assert(self.slots@[key_hash(self.index@[i].0@)]@.contains(iu));
                assert(key_hash(self.index@[i].0@) == h);
                assert(ps@.contains(iu));
                let jj = choose|jj: int| 0 <= jj < ps@.len() && ps@[jj] == iu;
                assert(ps@[jj] as int == i);
                assert(self.index@[ps@[jj] as int].0@ != key@);
            }
        }
        None
    }

    fn set_entry(&mut self, i: usize, e: (String, Locator))
        requires
            old(self).slots_ok(),
            i < old(self).index@.len(),
            e.0@ == old(self).index@[i as int].0@,
        ensures
            final(self).index@ == old(self).index@.update(i as int, e),
            final(self).slots_ok(),
            final(self).slots@ == old(self).slots@,
            final(self).segments@ == old(self).segments@,
            final(self).active_size == old(self).active_size,
            final(self).contents@ == old(self).contents@,
            final(self).kv@ == old(self).kv@,
    {
        let ghost old_s = *self;
        self.index.set(i, e);
        proof {
            assert forall|j: int| 0 <= j < self.index@.len() implies #[trigger] self.index@[j].0@
                == old_s.index@[j].0@ by {}
            lemma_slots_same_keys(old_s, *self);
        }
    }

    fn push_entry(&mut self, e: (String, Locator))
        requires
            old(self).slots_ok(),
        ensures
            final(self).index@ == old(self).index@.push(e),
            final(self).slots_ok(),
            final(self).segments@ == old(self).segments@,
            final(self).active_size == old(self).active_size,
            final(self).contents@ == old(self).contents@,
            final(self).kv@ == old(self).kv@,
    {
        broadcast use vstd::std_specs::hash::group_hash_axioms;

        let ghost old_s = *self;
        let h = hash_key(&e.0);
        let n = self.index.len();
        let mut ps = match self.slots.remove(&h) {
            Some(v) => v,
            None => Vec::new(),
        };
        let ghost old_ps = ps@;
        ps.push(n);
        self.slots.insert(h, ps);
        self.index.push(e);
        proof {
            assert forall|i: int| 0 <= i < self.index@.len() implies {
                &&& self.slots@.contains_key(key_hash(#[trigger] self.index@[i].0@))
                &&& self.slots@[key_hash(self.index@[i].0@)]@.contains(i as usize)
            } by {
                if i < n {
                    assert(self.index@[i] == old_s.index@[i]);
                    assert(old_s.slots@[key_hash(old_s.index@[i].0@)]@.contains(i as usize));
                    if key_hash(old_s.index@[i].0@) == h {
                        let k = choose|k: int| 0 <= k < old_ps.len() && old_ps[k] == i as usize;
                        assert(self.slots@[h]@[k] == i as usize);
                    }
                } else {
                    assert(self.slots@[h]@[old_ps.len() as int] == n);
                }
            }
            assert forall|h2: u64, p: usize|
                self.slots@.contains_key(h2) && #[trigger] self.slots@[h2]@.contains(p) implies p
                    < self.index@.len() && key_hash(self.index@[p as int].0@) == h2 by {
                if h2 == h {
                    let k = choose|k: int| 0 <= k < self.slots@[h]@.len() && self.slots@[h]@[k] == p;
                    if k < old_ps.len() {
                        assert(old_ps[k] == p);
                        assert(old_s.slots@[h]@.contains(p));
                        assert(self.index@[p as int] == old_s.index@[p as int]);
                    }
                } else {
                    assert(old_s.slots@[h2]@.contains(p));
                    assert(self.index@[p as int] == old_s.index@[p as int]);
                }
            }
        }
    }

    #[verifier::spinoff_prover]
    #[verifier::rlimit(100)]
    fn drop_entry(&mut self, pos: usize)
        requires
            old(self).slots_ok(),
            pos < old(self).index@.len(),
        ensures
            final(self).index@ == old(self).index@.update(pos as int, old(self).index@.last()).drop_last(),
            final(self).slots_ok(),
            final(self).segments@ == old(self).segments@,
            final(self).active_size == old(self).active_size,
            final(self).contents@ == old(self).contents@,
            final(self).kv@ == old(self).kv@,
    {
        broadcast use vstd::std_specs::hash::group_hash_axioms;

        let ghost old_s = *self;
        let n = self.index.len();
        let last = n - 1;
        let hp = hash_key(&self.index[pos].0);
        let hl = hash_key(&self.index[last].0);
        let ps = match self.slots.remove(&hp) {
            Some(v) => v,
            None => Vec::new(),
        };
        let new_ps = retarget(&ps, pos, last);
        self.slots.insert(hp, new_ps);
        if hl != hp {
            let ql = match self.slots.remove(&hl) {
                Some(v) => v,
                None => Vec::new(),
            };
            let new_ql = retarget(&ql, pos, last);
            self.slots.insert(hl, new_ql);
        }
        self.index.swap_remove(pos);
        proof {
            let os = old_s.slots@;
            assert(os.contains_key(hp) && os.contains_key(hl)) by {
                assert(os.contains_key(key_hash(old_s.index@[pos as int].0@)));
                assert(os.contains_key(key_hash(old_s.index@[last as int].0@)));
            }
            assert(forall|h2: u64| h2 != hp && h2 != hl ==> #[trigger] self.slots@.contains_key(h2)
                == os.contains_key(h2) && (os.contains_key(h2) ==> self.slots@[h2] == os[h2]));
            assert(forall|x: usize|
                #[trigger] self.slots@[hp]@.contains(x) <==> ((os[hp]@.contains(x) && x != pos && x
                    != last) || (x == pos && pos != last && os[hp]@.contains(last))));
            assert(forall|x: usize|
                #[trigger] self.slots@[hl]@.contains(x) <==> ((os[hl]@.contains(x) && x != pos && x
                    != last) || (x == pos && pos != last && os[hl]@.contains(last))));
            assert forall|i: int| 0 <= i < self.index@.len() implies {
                &&& self.slots@.contains_key(key_hash(#[trigger] self.index@[i].0@))
                &&& self.slots@[key_hash(self.index@[i].0@)]@.contains(i as usize)
            } by {
                let o = if i == pos { last as int } else { i };
                assert(self.index@[i] == old_s.index@[o]);
                assert(os[key_hash(old_s.index@[o].0@)]@.contains(o as usize));
            }
            assert forall|h2: u64, p: usize|
                self.slots@.contains_key(h2) && #[trigger] self.slots@[h2]@.contains(p) implies p
                    < self.index@.len() && key_hash(self.index@[p as int].0@) == h2 by {
                if h2 == hp || h2 == hl {
                    if p == pos && pos != last && os[h2]@.contains(last) {
                        assert(self.index@[p as int] == old_s.index@[last as int]);
                    } else {
                        assert(os[h2]@.contains(p));
                        assert(self.index@[p as int] == old_s.index@[p as int]);
                    }
                } else {
                    assert(os[h2]@.contains(p));
                    assert(key_hash(old_s.index@[p as int].0@) == h2);
                    assert(p != pos && p != last);
                    assert(self.index@[p as int] == old_s.index@[p as int]);
                }
            }
        }
    }

    /// Where the value of `key` lies, if the store holds the key.
    pub fn locate(&self, key: &String) -> (r: Option<Locator>)
        requires
            self.inv(),
        ensures
            r is Some <==> self.map().contains_key(key@),
            r matches Some(loc) ==> entry_holds(self.contents(), key@, loc, self.map()[key@]),
    {
        match self.find(key) {
            Some(i) => Some(self.index[i].1),
            None => None,
        }
    }

    proof fn lemma_extend_active(&self, new_contents: Map<u64, Seq<u8>>, bytes: Seq<u8>)
        requires
            self.inv(),
            self.segments@.len() > 0,
            new_contents == self.contents@.insert(
                self.segments@.last(),
                self.contents@[self.segments@.last()] + bytes,
            ),
        ensures
            forall|i: int|
                0 <= i < self.index@.len() ==> entry_holds(
                    new_contents,
                    self.index@[i].0@,
                    self.index@[i].1,
                    self.kv@[self.index@[i].0@],
                ),
    {
        assert forall|i: int| 0 <= i < self.index@.len() implies entry_holds(
            new_contents,
            self.index@[i].0@,
            self.index@[i].1,
            self.kv@[self.index@[i].0@],
        ) by {
            let loc = self.index@[i].1;
            assert(self.kv@.contains_key(self.index@[i].0@));
            if loc.log_id == self.segments@.last() {
                assert(slice_at(new_contents, loc) =~= slice_at(self.contents@, loc));
            }
        }
    }

    /// Records `key` ↦ `value` and returns the bytes that the caller appends
    /// to the active segment. Fails, changing nothing, where the segment
    /// would outgrow a 64-bit size.
    pub fn put(&mut self, key: String, value: String) -> (r: Result<Vec<u8>, KvsError>)
        requires
            old(self).wf(),
        ensures
            final(self).wf(),
            r matches Ok(bytes) ==> {
                &&& bytes@ == encode_spec(CommandView::Put { key: key@, value: value@ })
                &&& final(self).map() == old(self).map().insert(key@, value@)
                &&& final(self).segment_ids() == old(self).segment_ids()
                &&& final(self).contents() == old(self).contents().insert(
                    old(self).active(),
                    old(self).contents()[old(self).active()] + bytes@,
                )
            },
            r is Err <==> old(self).contents()[old(self).active()].len() + encode_spec(
                CommandView::Put { key: key@, value: value@ },
            ).len() > u64::MAX,
            r is Err ==> r == Err::<Vec<u8>, KvsError>(KvsError::Exhausted) && *final(self) == *old(self),
    {
        let cmd = Command::Put { key: key.clone(), value };
        let bytes = encode(&cmd);
        let ghost value_view = cmd@->Put_value;
        if bytes.len() as u64 > u64::MAX - self.active_size {
            return Err(KvsError::Exhausted);
        }
        let loc = Locator {
            log_id: self.segments[self.segments.len() - 1],
            offset: self.active_size,
            length: bytes.len() as u64,
        };
        let ghost old_self = *self;
        let ghost new_contents = self.contents@.insert(
            loc.log_id,
            self.contents@[loc.log_id] + bytes@,
        );
        proof {
            old_self.lemma_extend_active(new_contents, bytes@);
            lemma_decode_encode(cmd@, Seq::empty());
            assert(encode_spec(cmd@) + Seq::<u8>::empty() =~= encode_spec(cmd@));
            assert(slice_at(new_contents, loc) =~= bytes@);
        }
        let pos = self.find(&key);
        let entry = (key, loc);
        match pos {
            Some(i) => {
                self.set_entry(i, entry);
            },
            None => {
                self.push_entry(entry);
            },
        }
        self.active_size = self.active_size + bytes.len() as u64;
        self.contents = Ghost(new_contents);
        self.kv = Ghost(self.kv@.insert(cmd@->Put_key, value_view));
        proof {
            let p = match pos {
                Some(i) => i as int,
                None => -1,
            };
            lemma_persists_append(old_self, *self, bytes@, cmd@);
            lemma_installed(old_self, *self, entry, value_view, p);
        }
        Ok(bytes)
    }

    /// Drops `key` and returns the bytes of the `Remove` record that the
    /// caller appends to the active segment. A key that the store does not
    /// hold gives `Remove`, and nothing changes.
    pub fn remove(&mut self, key: String) -> (r: Result<Vec<u8>, KvsError>)
        requires
            old(self).wf(),
        ensures
            final(self).wf(),
            !old(self).map().contains_key(key@) ==> (r matches Err(KvsError::Remove(k))
                && k@ == key@),
            r matches Ok(bytes) ==> {
                &&& bytes@ == encode_spec(CommandView::Remove { key: key@ })
                &&& final(self).map() == old(self).map().remove(key@)
                &&& final(self).segment_ids() == old(self).segment_ids()
                &&& final(self).contents() == old(self).contents().insert(
                    old(self).active(),
                    old(self).contents()[old(self).active()] + bytes@,
                )
            },
            r is Ok <==> old(self).map().contains_key(key@) && old(self).contents()[old(
                self,
            ).active()].len() + encode_spec(CommandView::Remove { key: key@ }).len() <= u64::MAX,
            old(self).map().contains_key(key@) && r is Err ==> r matches Err(
                KvsError::Exhausted,
            ),
            r is Err ==> *final(self) == *old(self),
    {
        let pos = match self.find(&key) {
            Some(i) => i,
            None => {
                return Err(KvsError::Remove(key));
            },
        };
        let cmd = Command::Remove { key };
        let bytes = encode(&cmd);
        if bytes.len() as u64 > u64::MAX - self.active_size {
            return Err(KvsError::Exhausted);
        }
        let ghost old_self = *self;
        let ghost active = self.segments@.last();
        let ghost new_contents = self.contents@.insert(active, self.contents@[active] + bytes@);
        proof {
            old_self.lemma_extend_active(new_contents, bytes@);
            lemma_decode_encode(cmd@, Seq::empty());
            assert(encode_spec(cmd@) + Seq::<u8>::empty() =~= encode_spec(cmd@));
        }
        self.drop_entry(pos);
        self.active_size = self.active_size + bytes.len() as u64;
        self.contents = Ghost(new_contents);
        self.kv = Ghost(self.kv@.remove(cmd@->Remove_key));
        proof {
            lemma_persists_append(old_self, *self, bytes@, cmd@);
            lemma_evicted(old_self, *self, pos as int);
        }
        Ok(bytes)
    }

    /// The active segment has grown past the compaction threshold.
    pub fn needs_compaction(&self) -> (r: bool)
        requires
            self.wf(),
        ensures
            r == (self.contents()[self.active()].len() > THRESHOLD),
    {
        self.active_size > THRESHOLD
    }

    /// Replays segment `id`, holding `bytes`, on top of the segments replayed
    /// so far, and makes it the active segment. Returns the length of the run
    /// of complete records at its front: only the last segment may go on past
    /// it, and only with a record cut short; the caller truncates the segment
    /// to that length. Ids must come in ascending order (else `UnKnownLog`).
    #[verifier::spinoff_prover]
    #[verifier::rlimit(60)]
    pub fn replay(&mut self, id: u64, bytes: &[u8], last: bool) -> (r: Result<usize, KvsError>)
        requires
            old(self).inv(),
        ensures
            old(self).segment_ids().len() > 0 && id <= old(self).active() ==> (r matches Err(
                KvsError::UnKnownLog(x),
            ) && x == id),
            r is Ok <==> (old(self).segment_ids().len() == 0 || old(self).active() < id)
                && !tail_malformed(bytes@) && (prefix_len(bytes@) < bytes@.len() ==> last),
            (old(self).segment_ids().len() == 0 || old(self).active() < id) && r is Err ==> r
                matches Err(KvsError::Corrupt),
            r matches Ok(keep) ==> {
                &&& keep == prefix_len(bytes@)
                &&& final(self).wf()
                &&& final(self).map() == replay_spec(old(self).map(), bytes@)
                &&& final(self).contents() == old(self).contents().insert(
                    id,
                    bytes@.subrange(0, keep as int),
                )
                &&& final(self).segment_ids() == old(self).segment_ids().push(id)
            },
    {
        let n_seg = self.segments.len();
        if n_seg > 0 && id <= self.segments[n_seg - 1] {
            return Err(KvsError::UnKnownLog(id));
        }
        let ghost old_self = *self;
        let ghost s = bytes@;
        self.segments.push(id);
        self.active_size = 0;
        self.contents = Ghost(self.contents@.insert(id, Seq::empty()));
        proof {
            assert(!old_self.contents@.contains_key(id)) by {
                if old_self.contents@.contains_key(id) {
                    assert(old_self.segments@.contains(id));
                }
            }
            assert forall|i: int| 0 <= i < old_self.index@.len() implies entry_holds(
                self.contents@,
                old_self.index@[i].0@,
                old_self.index@[i].1,
                old_self.kv@[old_self.index@[i].0@],
            ) by {
                assert(old_self.kv@.contains_key(old_self.index@[i].0@));
            }
            assert forall|id2: u64| self.contents@.contains_key(id2) <==> self.segments@.contains(id2) by {
                if id2 == id {
                    assert(self.segments@[self.segments@.len() - 1] == id);
                }
                if self.segments@.contains(id2) && id2 != id {
                    let k = choose|k: int| 0 <= k < self.segments@.len() && self.segments@[k] == id2;
                    assert(old_self.segments@[k] == id2);
                }
                if old_self.segments@.contains(id2) {
                    let k = choose|k: int| 0 <= k < old_self.segments@.len() && old_self.segments@[k] == id2;
                    assert(self.segments@[k] == id2);
                }
            }
            lemma_persists_new_segment(old_self, *self, id);
            lemma_same_index_inv(old_self, *self);
            assert(s.subrange(0, 0) =~= Seq::<u8>::empty());
            assert(s.subrange(0, s.len() as int) =~= s);
        }
        let blen = bytes.len();
        let mut pos: usize = 0;
        loop
            invariant
                blen == s.len(),
                self.inv(),
                old_self == *old(self),
                old_self.segments@.len() == 0 || old_self.segments@.last() < id,
                self.segments@ == old_self.segments@.push(id),
                pos <= s.len(),
                s == bytes@,
                self.contents@ == old_self.contents@.insert(id, s.subrange(0, pos as int)),
                replay_spec(old_self.kv@, s) == replay_spec(
                    self.kv@,
                    s.subrange(pos as int, s.len() as int),
                ),
                prefix_len(s) == pos + prefix_len(s.subrange(pos as int, s.len() as int)),
                tail_malformed(s) == tail_malformed(s.subrange(pos as int, s.len() as int)),
            decreases s.len() - pos,
        {
            let ghost rest = s.subrange(pos as int, s.len() as int);
            match decode(bytes, pos) {
                Decoded::Record(cmd, n) => {
                    let ghost old_iter = *self;
                    let ghost new_contents = self.contents@.insert(id, s.subrange(0, pos + n));
                    proof {
                        assert(rest.subrange(n as int, rest.len() as int) =~= s.subrange(
                            pos + n,
                            s.len() as int,
                        ));
                        assert(s.subrange(0, pos + n) =~= s.subrange(0, pos as int) + s.subrange(
                            pos as int,
                            pos + n,
                        ));
                        old_iter.lemma_extend_active(new_contents, s.subrange(pos as int, pos + n));
                        lemma_parse_prefix(rest, n as int);
                        assert(rest.subrange(0, n as int) =~= s.subrange(pos as int, pos + n));
                        assert(rest.subrange(0, n as int) =~= s.subrange(0, pos + n).subrange(
                            pos as int,
                            pos + n,
                        ));
                    }
                    let ghost cmd_view = cmd@;
                    let at = match &cmd {
                        Command::Put { key, value: _ } => self.find(key),
                        Command::Remove { key } => self.find(key),
                    };
                    assert(pos + n <= blen);
                    assert(new_contents =~= old_self.contents@.insert(id, s.subrange(0, pos + n)));
                    self.contents = Ghost(new_contents);
                    self.active_size = (pos + n) as u64;
                    match cmd {
                        Command::Put { key, value } => {
                            let loc = Locator { log_id: id, offset: pos as u64, length: n as u64 };
                            let entry = (key, loc);
                            match at {
                                Some(i) => {
                                    self.set_entry(i, entry);
                                },
                                None => {
                                    self.push_entry(entry);
                                },
                            }
                            self.kv = Ghost(self.kv@.insert(entry.0@, value@));
                            proof {
                                let p = match at {
                                    Some(i) => i as int,
                                    None => -1,
                                };
                                lemma_persists_append(old_iter, *self, s.subrange(pos as int, pos + n), cmd_view);
                                lemma_installed(old_iter, *self, entry, value@, p);
                            }
                        },
                        Command::Remove { key } => {
                            match at {
                                Some(i) => {
                                    self.drop_entry(i);
                                    self.kv = Ghost(self.kv@.remove(key@));
                                    proof {
                                        lemma_persists_append(old_iter, *self, s.subrange(pos as int, pos + n), cmd_view);
                                        lemma_evicted(old_iter, *self, i as int);
                                    }
                                },
                                None => {
                                    proof {
                                        assert(self.kv@.remove(key@) =~= self.kv@);
                                        lemma_persists_append(old_iter, *self, s.subrange(pos as int, pos + n), cmd_view);
                                        lemma_same_index(old_iter, *self);
                                    }
                                },
                            }
                        },
                    }
                    pos = pos + n;
                },
                Decoded::Incomplete => {
                    if pos < bytes.len() && !last {
                        return Err(KvsError::Corrupt);
                    }
                    proof {
                        assert(s.subrange(0, pos as int) == bytes@.subrange(0, pos as int));
                    }
                    return Ok(pos);
                },
                Decoded::Malformed => {
                    return Err(KvsError::Corrupt);
                },
            }
        }
    }

    /// Ends recovery: where no segment was found, segment 1 is added, empty,
    /// and its id is returned so that the caller creates it.
    pub fn ensure_active(&mut self) -> (r: Option<u64>)
        requires
            old(self).inv(),
        ensures
            final(self).wf(),
            final(self).map() == old(self).map(),
            old(self).segment_ids().len() > 0 ==> r is None && *final(self) == *old(self),
            old(self).segment_ids().len() == 0 ==> r == Some(1u64) && final(self).segment_ids()
                == seq![1u64] && final(self).contents() == old(self).contents().insert(
                1,
                Seq::empty(),
            ),
    {
        if self.segments.len() > 0 {
            return None;
        }
        let ghost old_self = *self;
        self.segments.push(1);
        self.active_size = 0;
        self.contents = Ghost(self.contents@.insert(1, Seq::empty()));
        proof {
            assert(self.segments@ =~= seq![1u64]);
            assert forall|id2: u64| self.contents@.contains_key(id2) <==> self.segments@.contains(id2) by {
                if id2 == 1 {
                    assert(self.segments@[0] == 1u64);
                }
                if self.segments@.contains(id2) {
                    assert(self.segments@[0] == id2);
                }
                if old_self.contents@.contains_key(id2) {
                    assert(old_self.segments@.contains(id2));
                }
            }
            assert forall|i: int| 0 <= i < old_self.index@.len() implies entry_holds(
                self.contents@,
                old_self.index@[i].0@,
                old_self.index@[i].1,
                old_self.kv@[old_self.index@[i].0@],
            ) by {
                assert(old_self.kv@.contains_key(old_self.index@[i].0@));
                assert(old_self.contents@.contains_key(old_self.index@[i].1.log_id));
                assert(old_self.segments@.contains(old_self.index@[i].1.log_id));
            }
            assert(!old_self.contents@.contains_key(1)) by {
                if old_self.contents@.contains_key(1) {
                    assert(old_self.segments@.contains(1));
                }
            }
            assert(self.segments@ == old_self.segments@.push(1));
            lemma_persists_new_segment(old_self, *self, 1);
            lemma_same_index_inv(old_self, *self);
        }
        Some(1)
    }

    /// Rewrites every live record into segment `active + 1`, retires every
    /// older segment and makes the empty segment `active + 2` active. The
    /// mapping does not change; the rewritten segment holds the live records
    /// and nothing else. Fails, changing nothing, where ids or offsets would
    /// outgrow 64 bits.
    #[verifier::spinoff_prover]
    #[verifier::rlimit(100)]
    pub fn compact(&mut self) -> (r: Result<CompactionPlan, KvsError>)
        requires
            old(self).wf(),
        ensures
            final(self).wf(),
            final(self).map() == old(self).map(),
            r is Err <==> old(self).active() > u64::MAX - 2 || total_len(
                old(self).live().map_values(|e: (Seq<char>, Locator)| e.1),
            ) > u64::MAX,
            r is Err ==> (r matches Err(KvsError::Exhausted)) && *final(self) == *old(self),
            r matches Ok(plan) ==> {
                &&& plan.target == old(self).active() + 1
                &&& plan.next_active == old(self).active() + 2
                &&& plan.retired@ == old(self).segment_ids()
                &&& plan.copies@ == old(self).live().map_values(|e: (Seq<char>, Locator)| e.1)
                &&& final(self).segment_ids() == seq![plan.target, plan.next_active]
                &&& final(self).contents() == Map::<u64, Seq<u8>>::empty().insert(
                    plan.target,
                    concat_slices(old(self).contents(), plan.copies@),
                ).insert(plan.next_active, Seq::empty())
                &&& final(self).contents()[plan.target].len() == total_len(plan.copies@)
            },
    {
        let old_active = self.segments[self.segments.len() - 1];
        if old_active > u64::MAX - 2 {
            return Err(KvsError::Exhausted);
        }
        let target = old_active + 1;
        let mut copies: Vec<Locator> = Vec::new();
        let mut new_index: Vec<(String, Locator)> = Vec::new();
        let mut off: u64 = 0;
        let ghost contents = self.contents@;
        let ghost mut data: Seq<u8> = Seq::empty();
        let ghost mut partial: Map<Seq<char>, Seq<char>> = Map::empty();
        let mut i: usize = 0;
        proof {
            reveal(moved_prefix);
            assert(parse_record(Seq::<u8>::empty()) is Incomplete);
        }
        while i < self.index.len()
            invariant
                self.wf(),
                contents == self.contents@,
                i <= self.index@.len(),
                new_index@.len() == i,
                copies@.len() == i,
                data == concat_slices(contents, copies@),
                data.len() == off,
                data.len() == total_len(copies@),
                forall|j: int| 0 <= j < i ==> copies@[j] == self.index@[j].1,
                moved_prefix(data, contents, target, new_index@, self.index@, i as int),
                prefix_len(data) == data.len(),
                replay_spec(Map::empty(), data) == partial,
                forall|k: Seq<char>|
                    partial.contains_key(k) <==> exists|j: int|
                        0 <= j < i && #[trigger] self.index@[j].0@ == k,
                forall|j: int|
                    0 <= j < i ==> #[trigger] partial[self.index@[j].0@]
                        == self.kv@[self.index@[j].0@],
            decreases self.index@.len() - i,
        {
            let loc = self.index[i].1;
            if loc.length > u64::MAX - off {
                proof {
                    let all = self.live().map_values(|e: (Seq<char>, Locator)| e.1);
                    assert(all.subrange(0, i + 1).drop_last() =~= copies@);
                    assert(all.subrange(0, i + 1).last() == loc);
                    lemma_total_len_prefix(all, i + 1);
                }
                return Err(KvsError::Exhausted);
            }
            let key = self.index[i].0.clone();
            let ghost piece = slice_at(contents, loc);
            let ghost k = self.index@[i as int].0@;
            proof {
                assert(self.kv@.contains_key(self.index@[i as int].0@));
                assert(piece.len() == loc.length);
                lemma_parse_prefix(piece, piece.len() as int);
                lemma_replay_append(
                    Map::empty(),
                    data,
                    piece,
                    CommandView::Put { key: k, value: self.kv@[k] },
                );
                let p2 = partial.insert(k, self.kv@[k]);
                assert forall|k2: Seq<char>| p2.contains_key(k2) <==> exists|j: int|
                    0 <= j < i + 1 && #[trigger] self.index@[j].0@ == k2 by {
                    if k2 == k {
                        assert(self.index@[i as int].0@ == k2);
                    }
                    if exists|j: int| 0 <= j < i + 1 && #[trigger] self.index@[j].0@ == k2 {
                        if k2 != k {
                            let j = choose|j: int| 0 <= j < i + 1 && #[trigger] self.index@[j].0@ == k2;
                            assert(j < i);
                        }
                    }
                }
                assert forall|j: int| 0 <= j < i + 1 implies #[trigger] p2[self.index@[j].0@]
                    == self.kv@[self.index@[j].0@] by {
                    if j < i {
                        assert(self.index@[j].0@ != k);
                    }
                }
                partial = p2;
            }
            let ghost old_data = data;
            let ghost old_copies = copies@;
            let ghost old_new_index = new_index@;
            new_index.push((key, Locator { log_id: target, offset: off, length: loc.length }));
            copies.push(loc);
            proof {
                assert(new_index@.drop_last() =~= old_new_index);
                lemma_moved_step(data, piece, contents, target, old_new_index, new_index@, self.index@, i as int);
                data = data + piece;
                assert(copies@.drop_last() =~= old_copies);
                assert(copies@.last() == loc);
            }
            off = off + loc.length;
            i = i + 1;
        }
        let ghost old_self = *self;
        let next = target + 1;
        let retired = self.segments.clone();
        let mut segments: Vec<u64> = Vec::new();
        segments.push(target);
        segments.push(next);
        self.segments = segments;
        self.index = new_index;
        self.active_size = 0;
        self.contents = Ghost(
            Map::<u64, Seq<u8>>::empty().insert(target, data).insert(next, Seq::empty()),
        );
        proof {
            assert(self.segments@ =~= seq![target, next]);
            assert(partial =~= old_self.kv@) by {
                assert forall|k: Seq<char>| old_self.kv@.contains_key(k) implies partial.contains_key(k) by {
                    let j = choose|j: int| 0 <= j < old_self.index@.len() && #[trigger] old_self.index@[j].0@ == k;
                    assert(old_self.index@[j].0@ == k);
                }
                assert forall|k: Seq<char>| partial.contains_key(k) implies old_self.kv@.contains_key(k)
                    && partial[k] == old_self.kv@[k] by {
                    let j = choose|j: int| 0 <= j < old_self.index@.len() && #[trigger] old_self.index@[j].0@ == k;
                    assert(old_self.kv@.contains_key(old_self.index@[j].0@));
                }
            }
            assert(seq![target, next].drop_last() =~= seq![target]);
            assert(seq![target].drop_last() =~= Seq::<u64>::empty());
            assert(replay_spec(old_self.kv@, Seq::<u8>::empty()) == old_self.kv@);
            assert(prefix_len(Seq::<u8>::empty()) == 0);
            assert(replay_segments(Map::empty(), self.contents@, self.segments@) == replay_spec(
                replay_segments(Map::empty(), self.contents@, seq![target]),
                Seq::empty(),
            ));
            assert(self.contents@[target] == data);
            assert(self.contents@[next] == Seq::<u8>::empty());
            assert(replay_segments(Map::empty(), self.contents@, Seq::<u64>::empty()) == Map::<Seq<char>, Seq<char>>::empty());
            assert(seq![target].last() == target);
            assert(replay_segments(Map::empty(), self.contents@, seq![target]) == replay_spec(
                Map::empty(),
                data,
            ));
            lemma_rewritten(old_self, *self, target, data);
            lemma_slots_same_keys(old_self, *self);
            assert(copies@ =~= old_self.live().map_values(|e: (Seq<char>, Locator)| e.1));
            assert(total_len(copies@) <= u64::MAX);
            assert(self.segments@ =~= seq![target, next]);
        }
        Ok(CompactionPlan { target, copies, retired, next_active: next })
    }
}

} // verus!
