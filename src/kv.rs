//! The store: an index from keys to the last record written for them, over
//! the segments of an append-only log.

use crate::codec::{
    decode_spec,
    copy_range,
    decode_next,
    encode,
    encode_spec,
    lemma_decode_canonical,
    lemma_parse_append,
    lemma_round_trip,
    parse_log,
    record_fits,
    Log,
    LogModel,
};
use crate::error::KvsError;
use crate::log_helpers::{LogReader, LogWriter};
use vstd::prelude::*;

verus! {

/// Where a record stands: its segment, its first byte and its length.
#[derive(Debug)]
pub struct LogReference {
    pub filename: String,
    pub pos: u64,
    pub size: u64,
}

impl LogReference {
    /// A reference to the `size` bytes at `pos` in `filename`.
    pub fn new(filename: String, pos: u64, size: u64) -> (r: Self)
        ensures
            r.filename@ == filename@,
            r.pos == pos,
            r.size == size,
    {
        LogReference { filename, pos, size }
    }
}

/// The last record for `k` in `log`, if any.
pub open spec fn latest(log: Seq<LogModel>, k: Seq<char>) -> Option<LogModel>
    decreases log.len(),
{
    if log.len() == 0 {
        None
    } else if log.last().key() == k {
        Some(log.last())
    } else {
        latest(log.drop_last(), k)
    }
}

/// The value that a record leaves its key with: that of a put, none after a removal.
pub open spec fn value_of(o: Option<LogModel>) -> Option<Seq<char>> {
    match o {
        Some(LogModel::Put { value, .. }) => Some(value),
        _ => None,
    }
}

/// The records of one segment (none where it does not parse).
pub open spec fn records_of(b: Seq<u8>) -> Seq<LogModel> {
    match parse_log(b) {
        Some(rs) => rs,
        None => Seq::empty(),
    }
}

/// The records of all segments, in order.
pub open spec fn log_of(images: Seq<Seq<u8>>) -> Seq<LogModel>
    decreases images.len(),
{
    if images.len() == 0 {
        Seq::empty()
    } else {
        log_of(images.drop_last()) + records_of(images.last())
    }
}

pub open spec fn reader_names(rs: Seq<(String, LogReader)>) -> Seq<Seq<char>> {
    Seq::new(rs.len(), |i: int| rs[i].0@)
}

pub open spec fn reader_images(rs: Seq<(String, LogReader)>) -> Seq<Seq<u8>> {
    Seq::new(rs.len(), |i: int| rs[i].1.data@)
}

pub open spec fn distinct(names: Seq<Seq<char>>) -> bool {
    forall|i: int, j: int| 0 <= i < j < names.len() ==> names[i] != names[j]
}

/// The record number `idx` of the log starts at byte `p` of the segment named
/// `n`, takes `z` bytes there, and is `l`.
pub open spec fn record_start(
    names: Seq<Seq<char>>,
    images: Seq<Seq<u8>>,
    n: Seq<char>,
    p: u64,
    z: u64,
    l: LogModel,
    idx: int,
) -> bool {
    exists|j: int|
        0 <= j < names.len() && j < images.len() && #[trigger] names[j] == n && p + z
            <= images[j].len() && images[j].subrange(p as int, p + z) == encode_spec(l)
            && parse_log(images[j].subrange(0, p as int)) is Some && log_of(
            images.subrange(0, j),
        ).len() + records_of(images[j].subrange(0, p as int)).len() == idx
}

/// `r` is where the record number `idx` of the log, `l`, starts.
pub open spec fn located(
    names: Seq<Seq<char>>,
    images: Seq<Seq<u8>>,
    r: LogReference,
    l: LogModel,
    idx: int,
) -> bool {
    record_start(names, images, r.filename@, r.pos, r.size, l, idx)
}

/// The number of the last record for `k` in `log`; -1 if there is none.
pub open spec fn latest_index(log: Seq<LogModel>, k: Seq<char>) -> int
    decreases log.len(),
{
    if log.len() == 0 {
        -1
    } else if log.last().key() == k {
        log.len() - 1
    } else {
        latest_index(log.drop_last(), k)
    }
}

/// The index has an entry for `k`.
pub open spec fn has_key(store: Seq<(String, LogReference)>, k: Seq<char>) -> bool {
    exists|i: int| 0 <= i < store.len() && #[trigger] store[i].0@ == k
}

/// The index maps `k` to the `z` bytes at `p` in the segment named `n`.
pub open spec fn has_entry(
    store: Seq<(String, LogReference)>,
    k: Seq<char>,
    n: Seq<char>,
    p: u64,
    z: u64,
) -> bool {
    exists|i: int|
        0 <= i < store.len() && #[trigger] store[i].0@ == k && store[i].1.filename@ == n
            && store[i].1.pos == p && store[i].1.size == z
}

proof fn lemma_located_at(
    names: Seq<Seq<char>>,
    images: Seq<Seq<u8>>,
    r: LogReference,
    l: LogModel,
    idx: int,
) -> (j: int)
    requires
        located(names, images, r, l, idx),
    ensures
        0 <= j < names.len() && j < images.len() && names[j] == r.filename@ && r.pos + r.size
            <= images[j].len() && images[j].subrange(r.pos as int, r.pos + r.size) == encode_spec(
            l,
        ) && parse_log(images[j].subrange(0, r.pos as int)) is Some && log_of(
            images.subrange(0, j),
        ).len() + records_of(images[j].subrange(0, r.pos as int)).len() == idx,
{
    choose|j: int|
        0 <= j < names.len() && j < images.len() && #[trigger] names[j] == r.filename@ && r.pos
            + r.size <= images[j].len() && images[j].subrange(r.pos as int, r.pos + r.size)
            == encode_spec(l) && parse_log(images[j].subrange(0, r.pos as int)) is Some && log_of(
            images.subrange(0, j),
        ).len() + records_of(images[j].subrange(0, r.pos as int)).len() == idx
}

/// The index holds each key at most once, each entry locates the last record
/// for its key, and a key that it does not hold has no value.
pub open spec fn index_ok(
    store: Seq<(String, LogReference)>,
    names: Seq<Seq<char>>,
    images: Seq<Seq<u8>>,
    log: Seq<LogModel>,
) -> bool {
    &&& forall|i: int, j: int| 0 <= i < j < store.len() ==> store[i].0@ != store[j].0@
    &&& forall|i: int|
        #![trigger store[i]]
        0 <= i < store.len() ==> {
            &&& latest(log, store[i].0@) is Some
            &&& record_fits(latest(log, store[i].0@)->Some_0)
            &&& located(
                names,
                images,
                store[i].1,
                latest(log, store[i].0@)->Some_0,
                latest_index(log, store[i].0@),
            )
        }
    &&& forall|k: Seq<char>|
        (forall|i: int| 0 <= i < store.len() ==> store[i].0@ != k) ==> value_of(
            #[trigger] latest(log, k),
        ) is None
}

proof fn lemma_latest_push(log: Seq<LogModel>, l: LogModel, k: Seq<char>)
    ensures
        latest(log.push(l), k) == if l.key() == k {
            Some(l)
        } else {
            latest(log, k)
        },
        latest_index(log.push(l), k) == if l.key() == k {
            log.len() as int
        } else {
            latest_index(log, k)
        },
{
    assert(log.push(l).drop_last() =~= log);
}

proof fn lemma_log_of_push(images: Seq<Seq<u8>>, b: Seq<u8>)
    ensures
        log_of(images.push(b)) == log_of(images) + records_of(b),
{
    assert(images.push(b).drop_last() =~= images);
}

/// Appending the bytes of `l` to the last segment appends `l` to the log.
proof fn lemma_log_of_append(images: Seq<Seq<u8>>, l: LogModel)
    requires
        images.len() > 0,
        parse_log(images.last()) is Some,
        record_fits(l),
    ensures
        log_of(images.update(images.len() - 1, images.last() + encode_spec(l))) == log_of(
            images,
        ).push(l),
        parse_log(images.last() + encode_spec(l)) is Some,
{
    let n = images.len() - 1;
    let images2 = images.update(n, images.last() + encode_spec(l));
    lemma_parse_append(images.last(), l);
    assert(images2.drop_last() =~= images.drop_last());
    let a = log_of(images.drop_last());
    let rs = records_of(images.last());
    assert(a + rs.push(l) =~= (a + rs).push(l));
}

/// `store2` is `store` with `key` set to `r`.
pub open spec fn put_entry(
    store: Seq<(String, LogReference)>,
    store2: Seq<(String, LogReference)>,
    key: String,
    r: LogReference,
) -> bool {
    ||| exists|i: int|
        0 <= i < store.len() && #[trigger] store[i].0@ == key@ && store2 == store.remove(i).push(
            (key, r),
        )
    ||| (forall|i: int| 0 <= i < store.len() ==> store[i].0@ != key@) && store2 == store.push(
        (key, r),
    )
}

/// A new record `l` whose entry goes to `r`: the index stays sound.
#[verifier::rlimit(100)]
proof fn lemma_index_put(
    store: Seq<(String, LogReference)>,
    store2: Seq<(String, LogReference)>,
    names: Seq<Seq<char>>,
    images: Seq<Seq<u8>>,
    images2: Seq<Seq<u8>>,
    log: Seq<LogModel>,
    l: LogModel,
    key: String,
    r: LogReference,
)
    requires
        index_ok(store, names, images, log),
        forall|q: LogReference, m: LogModel, idx: int|
            located(names, images, q, m, idx) ==> #[trigger] located(names, images2, q, m, idx),
        located(names, images2, r, l, log.len() as int),
        record_fits(l),
        key@ == l.key(),
        put_entry(store, store2, key, r),
    ensures
        index_ok(store2, names, images2, log.push(l)),
{
    let log2 = log.push(l);
    assert forall|k: Seq<char>| #[trigger] latest(log2, k) == if l.key() == k {
        Some(l)
    } else {
        latest(log, k)
    } by {
        lemma_latest_push(log, l, k);
    }
    assert forall|k: Seq<char>| #[trigger] latest_index(log2, k) == if l.key() == k {
        log.len() as int
    } else {
        latest_index(log, k)
    } by {
        lemma_latest_push(log, l, k);
    }
    let kept = if exists|i: int|
        0 <= i < store.len() && #[trigger] store[i].0@ == key@ && store2 == store.remove(i).push(
            (key, r),
        ) {
        let i = choose|i: int|
            0 <= i < store.len() && #[trigger] store[i].0@ == key@ && store2 == store.remove(
                i,
            ).push((key, r));
        store.remove(i)
    } else {
        store
    };
    assert(store2 == kept.push((key, r)));
    assert forall|i: int| 0 <= i < kept.len() implies kept[i].0@ != key@ && exists|j: int|
        0 <= j < store.len() && store[j] == #[trigger] kept[i] by {
        if kept != store {
            let i0 = choose|i: int|
                0 <= i < store.len() && #[trigger] store[i].0@ == key@ && store2 == store.remove(
                    i,
                ).push((key, r));
            if i < i0 {
                assert(store[i] == kept[i]);
            } else {
                assert(store[i + 1] == kept[i]);
            }
        } else {
            assert(store[i] == kept[i]);
        }
    }
    assert forall|i: int| #![trigger store2[i]] 0 <= i < store2.len() implies {
        &&& latest(log2, store2[i].0@) is Some
        &&& record_fits(latest(log2, store2[i].0@)->Some_0)
        &&& located(
            names,
            images2,
            store2[i].1,
            latest(log2, store2[i].0@)->Some_0,
            latest_index(log2, store2[i].0@),
        )
    } by {
        if i < kept.len() {
            assert(store2[i] == kept[i]);
            let j = choose|j: int| 0 <= j < store.len() && store[j] == #[trigger] kept[i];
            assert(store[j] == store2[i]);
        } else {
            assert(store2[i] == (key, r));
        }
    }
    assert forall|i: int, j: int| 0 <= i < j < store2.len() implies store2[i].0@
        != store2[j].0@ by {
        if j < kept.len() {
            let a = choose|a: int| 0 <= a < store.len() && store[a] == #[trigger] kept[i];
            let b = choose|b: int| 0 <= b < store.len() && store[b] == #[trigger] kept[j];
            if kept != store {
                let i0 = choose|i: int|
                    0 <= i < store.len() && #[trigger] store[i].0@ == key@ && store2
                        == store.remove(i).push((key, r));
                assert(a == if i < i0 { i } else { i + 1 });
                assert(b == if j < i0 { j } else { j + 1 }) by {
                    if j < i0 {
                        assert(store[j] == kept[j]);
                    } else {
                        assert(store[j + 1] == kept[j]);
                    }
                    if store[b].0@ == kept[j].0@ && b != (if j < i0 { j } else { j + 1 }) {
                        let bb = if j < i0 { j } else { j + 1 };
                        if b < bb {
                            assert(store[b].0@ != store[bb].0@);
                        } else {
                            assert(store[bb].0@ != store[b].0@);
                        }
                    }
                }
            } else {
                assert(store[i] == kept[i]);
                assert(store[j] == kept[j]);
                if a != i {
                    if a < i {
                        assert(store[a].0@ != store[i].0@);
                    } else {
                        assert(store[i].0@ != store[a].0@);
                    }
                }
                if b != j {
                    if b < j {
                        assert(store[b].0@ != store[j].0@);
                    } else {
                        assert(store[j].0@ != store[b].0@);
                    }
                }
            }
        } else {
            assert(store2[j] == (key, r));
            assert(store2[i] == kept[i]);
        }
    }
    assert forall|k: Seq<char>|
        (forall|i: int| 0 <= i < store2.len() ==> store2[i].0@ != k) implies value_of(
        #[trigger] latest(log2, k),
    ) is None by {
        assert(store2[store2.len() - 1] == (key, r));
        assert(k != key@);
        assert forall|i: int| 0 <= i < store.len() implies store[i].0@ != k by {
            if store[i].0@ == k {
                if kept != store {
                    let i0 = choose|i: int|
                        0 <= i < store.len() && #[trigger] store[i].0@ == key@ && store2
                            == store.remove(i).push((key, r));
                    if i < i0 {
                        assert(store2[i] == store[i]);
                    } else {
                        assert(i != i0);
                        assert(store2[i - 1] == store[i]);
                    }
                } else {
                    assert(store2[i] == store[i]);
                }
            }
        }
    }
}


/// A removal `l` of the key at `i0`, whose entry leaves the index: the index stays sound.
proof fn lemma_index_remove(
    store: Seq<(String, LogReference)>,
    names: Seq<Seq<char>>,
    images: Seq<Seq<u8>>,
    images2: Seq<Seq<u8>>,
    log: Seq<LogModel>,
    l: LogModel,
    i0: int,
)
    requires
        index_ok(store, names, images, log),
        forall|q: LogReference, m: LogModel, idx: int|
            located(names, images, q, m, idx) ==> #[trigger] located(names, images2, q, m, idx),
        l is Rm,
        0 <= i0 < store.len(),
        store[i0].0@ == l.key(),
    ensures
        index_ok(store.remove(i0), names, images2, log.push(l)),
{
    let log2 = log.push(l);
    let store2 = store.remove(i0);
    assert forall|k: Seq<char>| #[trigger] latest(log2, k) == if l.key() == k {
        Some(l)
    } else {
        latest(log, k)
    } by {
        lemma_latest_push(log, l, k);
    }
    assert forall|k: Seq<char>| #[trigger] latest_index(log2, k) == if l.key() == k {
        log.len() as int
    } else {
        latest_index(log, k)
    } by {
        lemma_latest_push(log, l, k);
    }
    assert forall|i: int| 0 <= i < store2.len() implies #[trigger] store2[i] == store[if i < i0 {
        i
    } else {
        i + 1
    }] by {}
    assert forall|i: int| 0 <= i < store2.len() implies #[trigger] store2[i].0@ != l.key() by {
        let a = if i < i0 {
            i
        } else {
            i + 1
        };
        assert(store2[i] == store[a]);
        if a < i0 {
            assert(store[a].0@ != store[i0].0@);
        } else {
            assert(store[i0].0@ != store[a].0@);
        }
    }
    assert forall|i: int, j: int| 0 <= i < j < store2.len() implies store2[i].0@
        != store2[j].0@ by {
        let a = if i < i0 {
            i
        } else {
            i + 1
        };
        let b = if j < i0 {
            j
        } else {
            j + 1
        };
        assert(store2[i] == store[a]);
        assert(store2[j] == store[b]);
    }
    assert forall|i: int| #![trigger store2[i]] 0 <= i < store2.len() implies {
        &&& latest(log2, store2[i].0@) is Some
        &&& record_fits(latest(log2, store2[i].0@)->Some_0)
        &&& located(
            names,
            images2,
            store2[i].1,
            latest(log2, store2[i].0@)->Some_0,
            latest_index(log2, store2[i].0@),
        )
    } by {
        let a = if i < i0 {
            i
        } else {
            i + 1
        };
        assert(store2[i] == store[a]);
    }
    assert forall|k: Seq<char>|
        (forall|i: int| 0 <= i < store2.len() ==> store2[i].0@ != k) implies value_of(
        #[trigger] latest(log2, k),
    ) is None by {
        if k != l.key() {
            assert forall|i: int| 0 <= i < store.len() implies store[i].0@ != k by {
                if i < i0 {
                    assert(store2[i] == store[i]);
                } else if i > i0 {
                    assert(store2[i - 1] == store[i]);
                }
            }
        }
    }
}

/// The position of `key` in the index, if it is there.
fn find_key(store: &Vec<(String, LogReference)>, key: &String) -> (r: Option<usize>)
    ensures
        r matches Some(i) ==> i < store@.len() && store@[i as int].0@ == key@,
        r is None ==> forall|i: int| 0 <= i < store@.len() ==> store@[i].0@ != key@,
{
    let mut i: usize = 0;
    while i < store.len()
        invariant
            i <= store@.len(),
            forall|j: int| 0 <= j < i ==> store@[j].0@ != key@,
        decreases store@.len() - i,
    {
        if store[i].0 == *key {
            return Some(i);
        }
        i = i + 1;
    }
    None
}

/// The position of the segment named `name`, if there is one.
fn find_segment(readers: &Vec<(String, LogReader)>, name: &String) -> (r: Option<usize>)
    ensures
        r matches Some(i) ==> i < readers@.len() && readers@[i as int].0@ == name@,
        r is None ==> forall|i: int| 0 <= i < readers@.len() ==> readers@[i].0@ != name@,
{
    let mut i: usize = 0;
    while i < readers.len()
        invariant
            i <= readers@.len(),
            forall|j: int| 0 <= j < i ==> readers@[j].0@ != name@,
        decreases readers@.len() - i,
    {
        if readers[i].0 == *name {
            return Some(i);
        }
        i = i + 1;
    }
    None
}

/// Sets `key` to `r` in the index.
fn put_index(store: &mut Vec<(String, LogReference)>, key: String, r: LogReference)
    ensures
        put_entry(old(store)@, final(store)@, key, r),
{
    match find_key(store, &key) {
        Some(i) => {
            store.remove(i);
            store.push((key, r));
        },
        None => {
            store.push((key, r));
        },
    }
}

/// The key of a record.
fn key_of(log: Log) -> (r: String)
    ensures
        r@ == log@.key(),
{
    match log {
        Log::Put { key, .. } => key,
        Log::Rm { key } => key,
    }
}

/// `acc` followed by what `rest` holds, if it holds records.
pub open spec fn prepend(acc: Seq<LogModel>, rest: Option<Seq<LogModel>>) -> Option<
    Seq<LogModel>,
> {
    match rest {
        Some(rs) => Some(acc + rs),
        None => None,
    }
}

/// Setting `key` to `r` keeps every other key's entries and gives `key` the entry `r`.
proof fn lemma_put_entries(
    store: Seq<(String, LogReference)>,
    store2: Seq<(String, LogReference)>,
    key: String,
    r: LogReference,
)
    requires
        put_entry(store, store2, key, r),
    ensures
        has_entry(store2, key@, r.filename@, r.pos, r.size),
        has_key(store2, key@),
        forall|k: Seq<char>| k != key@ ==> has_key(store2, k) == has_key(store, k),
        forall|k: Seq<char>, n: Seq<char>, p: u64, z: u64|
            k != key@ ==> has_entry(store2, k, n, p, z) == has_entry(store, k, n, p, z),
{
    let last = store2.len() - 1;
    assert(store2[last] == (key, r));
    assert(store2[last].0@ == key@ && store2[last].1.filename@ == r.filename@ && store2[last].1.pos
        == r.pos && store2[last].1.size == r.size);
    let found = exists|i: int|
        0 <= i < store.len() && #[trigger] store[i].0@ == key@ && store2 == store.remove(i).push(
            (key, r),
        );
    let i0: int = if found {
        choose|i: int|
            0 <= i < store.len() && #[trigger] store[i].0@ == key@ && store2 == store.remove(
                i,
            ).push((key, r))
    } else {
        -1
    };
    // positions of `store` that survive in `store2`, and back
    assert forall|i: int| 0 <= i < store.len() && i != i0 implies store2[if found && i > i0 {
        i - 1
    } else {
        i
    }] == #[trigger] store[i] by {}
    assert forall|i: int| 0 <= i < last implies #[trigger] store2[i] == store[if found && i >= i0 {
        i + 1
    } else {
        i
    }] by {}
    assert forall|k: Seq<char>| k != key@ implies has_key(store2, k) == has_key(store, k) by {
        if has_key(store, k) {
            let i = choose|i: int| 0 <= i < store.len() && #[trigger] store[i].0@ == k;
            let t = if found && i > i0 {
                i - 1
            } else {
                i
            };
            assert(store2[t] == store[i]);
        }
        if has_key(store2, k) {
            let t = choose|t: int| 0 <= t < store2.len() && #[trigger] store2[t].0@ == k;
            let i = if found && t >= i0 {
                t + 1
            } else {
                t
            };
            assert(store2[t] == store[i]);
        }
    }
    assert forall|k: Seq<char>, n: Seq<char>, p: u64, z: u64| k != key@ implies has_entry(
        store2,
        k,
        n,
        p,
        z,
    ) == has_entry(store, k, n, p, z) by {
        if has_entry(store, k, n, p, z) {
            let i = choose|i: int|
                0 <= i < store.len() && #[trigger] store[i].0@ == k && store[i].1.filename@ == n
                    && store[i].1.pos == p && store[i].1.size == z;
            let t = if found && i > i0 {
                i - 1
            } else {
                i
            };
            assert(store2[t] == store[i]);
        }
        if has_entry(store2, k, n, p, z) {
            let t = choose|t: int|
                0 <= t < store2.len() && #[trigger] store2[t].0@ == k && store2[t].1.filename@ == n
                    && store2[t].1.pos == p && store2[t].1.size == z;
            let i = if found && t >= i0 {
                t + 1
            } else {
                t
            };
            assert(store2[t] == store[i]);
        }
    }
}

/// Dropping the entry at `i0` keeps every other key's entries.
proof fn lemma_remove_entries(store: Seq<(String, LogReference)>, i0: int)
    requires
        0 <= i0 < store.len(),
    ensures
        forall|k: Seq<char>| k != store[i0].0@ ==> has_key(store.remove(i0), k) == has_key(store, k),
        forall|k: Seq<char>, n: Seq<char>, p: u64, z: u64|
            k != store[i0].0@ ==> has_entry(store.remove(i0), k, n, p, z) == has_entry(
                store,
                k,
                n,
                p,
                z,
            ),
{
    let store2 = store.remove(i0);
    let key = store[i0].0@;
    assert forall|k: Seq<char>| k != key implies has_key(store2, k) == has_key(store, k) by {
        if has_key(store, k) {
            let i = choose|i: int| 0 <= i < store.len() && #[trigger] store[i].0@ == k;
            let t = if i > i0 {
                i - 1
            } else {
                i
            };
            assert(store2[t] == store[i]);
        }
        if has_key(store2, k) {
            let t = choose|t: int| 0 <= t < store2.len() && #[trigger] store2[t].0@ == k;
            let i = if t >= i0 {
                t + 1
            } else {
                t
            };
            assert(store2[t] == store[i]);
        }
    }
    assert forall|k: Seq<char>, n: Seq<char>, p: u64, z: u64| k != key implies has_entry(
        store2,
        k,
        n,
        p,
        z,
    ) == has_entry(store, k, n, p, z) by {
        if has_entry(store, k, n, p, z) {
            let i = choose|i: int|
                0 <= i < store.len() && #[trigger] store[i].0@ == k && store[i].1.filename@ == n
                    && store[i].1.pos == p && store[i].1.size == z;
            let t = if i > i0 {
                i - 1
            } else {
                i
            };
            assert(store2[t] == store[i]);
        }
        if has_entry(store2, k, n, p, z) {
            let t = choose|t: int|
                0 <= t < store2.len() && #[trigger] store2[t].0@ == k && store2[t].1.filename@ == n
                    && store2[t].1.pos == p && store2[t].1.size == z;
            let i = if t >= i0 {
                t + 1
            } else {
                t
            };
            assert(store2[t] == store[i]);
        }
    }
}

/// Every key with a record has an entry.
pub open spec fn index_full(store: Seq<(String, LogReference)>, log: Seq<LogModel>) -> bool {
    forall|k: Seq<char>| #[trigger] latest(log, k) is Some ==> has_key(store, k)
}

/// Replays one segment into the index: each record sets its key's entry to
/// the place where the record starts, a removal included. Keys that the
/// segment holds no record for keep their entries.
#[verifier::rlimit(100)]
fn process_file(
    log_reader: &LogReader,
    store: &mut Vec<(String, LogReference)>,
    filename: &String,
    names: Ghost<Seq<Seq<char>>>,
    images: Ghost<Seq<Seq<u8>>>,
) -> (r: Result<(), KvsError>)
    requires
        names@.len() == images@.len(),
        index_ok(old(store)@, names@, images@, log_of(images@)),
        index_full(old(store)@, log_of(images@)),
    ensures
        r is Ok <==> parse_log(log_reader.data@) is Some,
        r matches Err(e) ==> e is MalformedRecord,
        r is Ok ==> index_ok(
            final(store)@,
            names@.push(filename@),
            images@.push(log_reader.data@),
            log_of(images@.push(log_reader.data@)),
        ),
        r is Ok ==> index_full(final(store)@, log_of(images@.push(log_reader.data@))),
        r is Ok ==> forall|k: Seq<char>, n: Seq<char>, p: u64, z: u64|
            latest(records_of(log_reader.data@), k) is None ==> has_entry(final(store)@, k, n, p, z)
                == has_entry(old(store)@, k, n, p, z),
{
    let data = log_reader.data.as_slice();
    let n: usize = data.len();
    let ghost names2 = names@.push(filename@);
    let ghost images2 = images@.push(data@);
    let ghost base = log_of(images@);
    let ghost mut acc: Seq<LogModel> = Seq::empty();
    let ghost store0 = store@;
    let mut pos: usize = 0;
    proof {
        assert(data@.subrange(0, n as int) =~= data@);
        assert(data@.subrange(0, 0) =~= Seq::<u8>::empty());
        assert(parse_log(Seq::<u8>::empty()) == Some(Seq::<LogModel>::empty()));
        assert(base + acc =~= base);
        assert forall|q: LogReference, m: LogModel, idx: int|
            located(names@, images@, q, m, idx) implies #[trigger] located(
            names2,
            images2,
            q,
            m,
            idx,
        ) by {
            let j = lemma_located_at(names@, images@, q, m, idx);
            assert(names2[j] == names@[j]);
            assert(images2[j] == images@[j]);
            assert(images2.subrange(0, j) =~= images@.subrange(0, j));
        }
        assert(index_ok(store@, names2, images2, base + acc)) by {
            assert forall|i: int| #![trigger store@[i]] 0 <= i < store@.len() implies located(
                names2,
                images2,
                store@[i].1,
                latest(base, store@[i].0@)->Some_0,
                latest_index(base, store@[i].0@),
            ) by {}
        }
    }
    loop
        invariant
            pos <= n,
            n == data@.len(),
            data@ == log_reader.data@,
            names@.len() == images@.len(),
            names2 == names@.push(filename@),
            images2 == images@.push(data@),
            base == log_of(images@),
            prepend(acc, parse_log(data@.subrange(pos as int, n as int))) == parse_log(data@),
            parse_log(data@.subrange(0, pos as int)) == Some(acc),
            index_ok(store@, names2, images2, base + acc),
            index_full(store@, base + acc),
            store0 == old(store)@,
            forall|k: Seq<char>, nn: Seq<char>, p: u64, z: u64|
                latest(acc, k) is None ==> has_entry(store@, k, nn, p, z) == has_entry(
                    store0,
                    k,
                    nn,
                    p,
                    z,
                ),
        decreases n - pos,
    {
        match decode_next(data, pos) {
            Ok(None) => {
                proof {
                    let empty: Seq<u8> = Seq::empty();
                    assert(data@.subrange(pos as int, n as int) =~= empty);
                    assert(acc + Seq::<LogModel>::empty() =~= acc);
                    lemma_log_of_push(images@, data@);
                    assert(records_of(log_reader.data@) == acc);
                }
                return Ok(());
            },
            Err(e) => {
                return Err(e);
            },
            Ok(Some((log, len))) => {
                let ghost l = log@;
                let ghost tail = data@.subrange(pos as int, n as int);
                proof {
                    lemma_decode_canonical(tail);
                    assert(tail.subrange(len as int, tail.len() as int) =~= data@.subrange(
                        pos + len,
                        n as int,
                    ));
                    assert(tail.subrange(0, len as int) =~= data@.subrange(
                        pos as int,
                        pos + len,
                    ));
                }
                let key = key_of(log);
                let r = LogReference::new(filename.clone(), pos as u64, len as u64);
                let ghost old_store = store@;
                put_index(store, key, r);
                proof {
                    let jl = names2.len() - 1;
                    assert(names2[jl] == filename@);
                    assert(images2[jl] == data@);
                    assert(images2.subrange(0, jl) =~= images@);
                    assert(images2[jl].subrange(r.pos as int, r.pos + r.size) == encode_spec(l));
                    assert((base + acc).len() == base.len() + acc.len());
                    assert(located(names2, images2, r, l, (base + acc).len() as int));
                    assert forall|q: LogReference, m: LogModel, idx: int|
                        located(names2, images2, q, m, idx) implies #[trigger] located(
                        names2,
                        images2,
                        q,
                        m,
                        idx,
                    ) by {}
                    lemma_index_put(
                        old_store,
                        store@,
                        names2,
                        images2,
                        images2,
                        base + acc,
                        l,
                        key,
                        r,
                    );
                    lemma_put_entries(old_store, store@, key, r);
                    assert((base + acc).push(l) =~= base + acc.push(l));
                    assert forall|k: Seq<char>| #[trigger] latest((base + acc).push(l), k) is Some
                        implies has_key(store@, k) by {
                        lemma_latest_push(base + acc, l, k);
                    }
                    assert forall|k: Seq<char>, nn: Seq<char>, p: u64, z: u64|
                        latest(acc.push(l), k) is None implies has_entry(store@, k, nn, p, z)
                        == has_entry(store0, k, nn, p, z) by {
                        lemma_latest_push(acc, l, k);
                    }
                    let rest = parse_log(data@.subrange(pos + len, n as int));
                    if let Some(rs) = rest {
                        assert(acc + (seq![l] + rs) =~= acc.push(l) + rs);
                    }
                    assert(data@.subrange(0, pos + len) =~= data@.subrange(0, pos as int)
                        + encode_spec(l));
                    lemma_parse_append(data@.subrange(0, pos as int), l);
                    acc = acc.push(l);
                }
                pos = pos + len;
            },
        }
    }
}

/// Appending to the last segment keeps every record where it was.
proof fn lemma_located_append(names: Seq<Seq<char>>, images: Seq<Seq<u8>>, e: Seq<u8>)
    requires
        images.len() > 0,
    ensures
        forall|q: LogReference, m: LogModel, idx: int|
            located(names, images, q, m, idx) ==> #[trigger] located(
                names,
                images.update(images.len() - 1, images.last() + e),
                q,
                m,
                idx,
            ),
{
    let images2 = images.update(images.len() - 1, images.last() + e);
    assert forall|q: LogReference, m: LogModel, idx: int|
        located(names, images, q, m, idx) implies #[trigger] located(names, images2, q, m, idx) by {
        let j = lemma_located_at(names, images, q, m, idx);
        assert(images2[j].subrange(q.pos as int, q.pos + q.size) =~= images[j].subrange(
            q.pos as int,
            q.pos + q.size,
        ));
        assert(images2[j].subrange(0, q.pos as int) =~= images[j].subrange(0, q.pos as int));
        assert(images2.subrange(0, j) =~= images.subrange(0, j));
    }
}

pub open spec fn seg_names(segs: Seq<(String, Vec<u8>)>) -> Seq<Seq<char>> {
    Seq::new(segs.len(), |i: int| segs[i].0@)
}

pub open spec fn seg_images(segs: Seq<(String, Vec<u8>)>) -> Seq<Seq<u8>> {
    Seq::new(segs.len(), |i: int| segs[i].1@)
}

/// A key-value store over the segments of a log.
///
/// Each segment is held as a reader over its bytes; the last one is the
/// active segment, which the writer appends to. The index maps each key to
/// the place of the last record for it.
#[derive(Debug)]
pub struct KvStore {
    store: Vec<(String, LogReference)>,
    writer: LogWriter,
    readers: Vec<(String, LogReader)>,
}

impl KvStore {
    /// The names of the segments, in replay order.
    pub closed spec fn names(self) -> Seq<Seq<char>> {
        reader_names(self.readers@)
    }

    /// The bytes of the segments, in replay order.
    pub closed spec fn images(self) -> Seq<Seq<u8>> {
        reader_images(self.readers@)
    }

    /// Every record of the log, in the order written.
    pub open spec fn log(self) -> Seq<LogModel> {
        log_of(self.images())
    }

    /// The value of `k`: that of the last record for it, if that one is a put.
    pub open spec fn lookup(self, k: Seq<char>) -> Option<Seq<char>> {
        value_of(latest(self.log(), k))
    }

    /// The index holds an entry for `k`.
    pub closed spec fn indexed(self, k: Seq<char>) -> bool {
        has_key(self.store@, k)
    }

    /// The index maps `k` to the `z` bytes at `p` in the segment named `n`.
    pub closed spec fn entry(self, k: Seq<char>, n: Seq<char>, p: u64, z: u64) -> bool {
        has_entry(self.store@, k, n, p, z)
    }

    /// The active segment has room for the bytes of `l` below the largest position.
    pub open spec fn has_room(self, l: LogModel) -> bool {
        self.images().last().len() + encode_spec(l).len() <= u64::MAX
    }

    pub closed spec fn segments_wf(self) -> bool {
        &&& self.readers@.len() > 0
        &&& distinct(self.names())
        &&& forall|i: int| 0 <= i < self.images().len() ==> parse_log(#[trigger] self.images()[i]) is Some
        &&& self.writer.filename@ == self.names().last()
        &&& self.writer.pos == self.images().last().len()
        &&& self.writer.pending@.len() == 0
    }

    pub closed spec fn wf(self) -> bool {
        &&& self.segments_wf()
        &&& index_ok(self.store@, self.names(), self.images(), self.log())
    }

    /// Appends the bytes of `log` to the active segment and returns them;
    /// the index is left to the caller.
    fn write(&mut self, log: Log) -> (r: Result<Vec<u8>, KvsError>)
        requires
            old(self).segments_wf(),
        ensures
            final(self).segments_wf(),
            final(self).store@ == old(self).store@,
            final(self).names() == old(self).names(),
            r is Ok <==> old(self).has_room(log@),
            r matches Err(e) ==> e is Io && *final(self) == *old(self),
            r matches Ok(b) ==> {
                &&& b@ == encode_spec(log@)
                &&& decode_spec(b@) == Some((log@, b@.len() as int))
                &&& record_fits(log@)
                &&& final(self).images() == old(self).images().update(
                    old(self).images().len() - 1,
                    old(self).images().last() + b@,
                )
                &&& final(self).log() == old(self).log().push(log@)
                &&& final(self).writer.filename@ == old(self).writer.filename@
            },
    {
        let bytes = encode(&log);
        if bytes.len() as u64 > u64::MAX - self.writer.pos {
            return Err(KvsError::Io("the log has reached its largest size".to_owned()));
        }
        let ghost old_readers = self.readers@;
        self.writer.write(&bytes);
        let flushed = self.writer.flush();
        let seg = self.readers.pop().unwrap();
        let name = seg.0;
        let mut reader = seg.1;
        reader.append(&flushed);
        self.readers.push((name, reader));
        proof {
            let n = old_readers.len() - 1;
            let old_images = reader_images(old_readers);
            assert(self.names() =~= reader_names(old_readers));
            assert(self.images() =~= old_images.update(n, old_images.last() + flushed@));
            lemma_log_of_append(old_images, log@);
            lemma_round_trip(log@);
            assert forall|i: int| 0 <= i < self.images().len() implies parse_log(
                #[trigger] self.images()[i],
            ) is Some by {
                if i < n {
                    assert(self.images()[i] == old_images[i]);
                }
            }
        }
        Ok(flushed)
    }

    /// Sets `key` to `value`: appends a put record to the active segment and
    /// points the index at it. Returns the bytes appended, which the caller
    /// writes to the segment's file.
    pub fn set(&mut self, key: String, value: String) -> (r: Result<Vec<u8>, KvsError>)
        requires
            old(self).wf(),
        ensures
            final(self).wf(),
            r is Ok <==> old(self).has_room(LogModel::Put { key: key@, value: value@ }),
            r matches Err(e) ==> e is Io && *final(self) == *old(self),
            r matches Ok(b) ==> {
                &&& b@ == encode_spec(LogModel::Put { key: key@, value: value@ })
                &&& final(self).names() == old(self).names()
                &&& final(self).images() == old(self).images().update(
                    old(self).images().len() - 1,
                    old(self).images().last() + b@,
                )
                &&& final(self).log() == old(self).log().push(
                    LogModel::Put { key: key@, value: value@ },
                )
                &&& final(self).indexed(key@)
                &&& final(self).entry(
                    key@,
                    old(self).names().last(),
                    old(self).images().last().len() as u64,
                    b@.len() as u64,
                )
                &&& final(self).lookup(key@) == Some(value@)
                &&& forall|k: Seq<char>| k != key@ ==> #[trigger] final(self).indexed(k) == old(
                    self,
                ).indexed(k)
                &&& forall|k: Seq<char>, n: Seq<char>, p: u64, z: u64|
                    k != key@ ==> #[trigger] final(self).entry(k, n, p, z) == old(self).entry(
                        k,
                        n,
                        p,
                        z,
                    )
                &&& forall|k: Seq<char>| k != key@ ==> #[trigger] final(self).lookup(k) == old(
                    self,
                ).lookup(k)
            },
    {
        let k2 = key.clone();
        let start: u64 = self.writer.pos;
        let log = Log::Put { key, value };
        let ghost l = log@;
        let ghost old_store = self.store@;
        let ghost names = self.names();
        let ghost old_images = self.images();
        let ghost old_log = self.log();
        match self.write(log) {
            Err(e) => Err(e),
            Ok(bytes) => {
                let r = LogReference::new(self.writer.filename.clone(), start, bytes.len() as u64);
                put_index(&mut self.store, k2, r);
                proof {
                    let jl = names.len() - 1;
                    lemma_located_append(names, old_images, bytes@);
                    assert(self.images()[jl].subrange(r.pos as int, r.pos + r.size) =~= encode_spec(l));
                    assert(self.images()[jl].subrange(0, r.pos as int) =~= old_images[jl]);
                    assert(self.images().subrange(0, jl) =~= old_images.drop_last());
                    assert(names[jl] == r.filename@);
                    assert(located(names, self.images(), r, l, old_log.len() as int));
                    lemma_index_put(old_store, self.store@, names, old_images, self.images(), old_log, l, k2, r);
                    lemma_put_entries(old_store, self.store@, k2, r);
                    assert forall|k: Seq<char>| #[trigger] latest(self.log(), k) == if l.key() == k {
                        Some(l)
                    } else {
                        latest(old_log, k)
                    } by {
                        lemma_latest_push(old_log, l, k);
                    }
                    assert(self.store@[self.store@.len() - 1].0@ == key@);
                }
                Ok(bytes)
            },
        }
    }

    /// The value of `key`: the index gives the place of its last record, whose
    /// bytes are read from that segment and decoded. None where the key was
    /// never set or its last record is a removal.
    pub fn get(&self, key: String) -> (r: Option<String>)
        requires
            self.wf(),
        ensures
            r matches Some(v) ==> self.lookup(key@) == Some(v@),
            r is None ==> self.lookup(key@) is None,
    {
        let i = match find_key(&self.store, &key) {
            Some(i) => i,
            None => {
                return None;
            },
        };
        let log_ref = &self.store[i].1;
        let ghost l = latest(self.log(), key@)->Some_0;
        assert(self.store@[i as int].1 == *log_ref);
        let j = match find_segment(&self.readers, &log_ref.filename) {
            Some(j) => j,
            None => {
                proof {
                    let jj = lemma_located_at(self.names(), self.images(), *log_ref, l, latest_index(self.log(), key@));
                    assert(self.readers@[jj].0@ == self.names()[jj]);
                }
                return None;
            },
        };
        proof {
            let jj = lemma_located_at(self.names(), self.images(), *log_ref, l, latest_index(self.log(), key@));
            assert(self.names()[j as int] == log_ref.filename@);
            if jj != j {
                if jj < j {
                    assert(self.names()[jj] != self.names()[j as int]);
                } else {
                    assert(self.names()[j as int] != self.names()[jj]);
                }
            }
            assert(self.images()[j as int] == self.readers@[j as int].1.data@);
            lemma_round_trip(l);
        }
        let bytes = match self.readers[j].1.read_at(log_ref.pos, log_ref.size) {
            Ok(b) => b,
            Err(_) => {
                return None;
            },
        };
        proof {
            assert(bytes@.subrange(0, bytes@.len() as int) =~= bytes@);
        }
        match decode_next(bytes.as_slice(), 0) {
            Ok(Some((Log::Put { value, .. }, _))) => Some(value),
            _ => None,
        }
    }

    /// Removes `key`: appends a removal record to the active segment and drops
    /// the key's entry from the index. Fails with `KeyNotFound`, changing
    /// nothing, where the index has no entry for the key. Returns the bytes
    /// appended, which the caller writes to the segment's file.
    pub fn remove(&mut self, key: String) -> (r: Result<Vec<u8>, KvsError>)
        requires
            old(self).wf(),
        ensures
            final(self).wf(),
            !old(self).indexed(key@) ==> (r matches Err(e) && e is KeyNotFound),
            old(self).indexed(key@) ==> (r is Ok <==> old(self).has_room(LogModel::Rm { key: key@ })),
            r matches Err(e) ==> (e is KeyNotFound <==> !old(self).indexed(key@)),
            r matches Err(e) ==> (e is KeyNotFound || e is Io) && *final(self) == *old(self),
            r matches Ok(b) ==> {
                &&& b@ == encode_spec(LogModel::Rm { key: key@ })
                &&& final(self).names() == old(self).names()
                &&& final(self).images() == old(self).images().update(
                    old(self).images().len() - 1,
                    old(self).images().last() + b@,
                )
                &&& final(self).log() == old(self).log().push(LogModel::Rm { key: key@ })
                &&& !final(self).indexed(key@)
                &&& final(self).lookup(key@) is None
                &&& forall|k: Seq<char>| k != key@ ==> #[trigger] final(self).indexed(k) == old(
                    self,
                ).indexed(k)
                &&& forall|k: Seq<char>, n: Seq<char>, p: u64, z: u64|
                    k != key@ ==> #[trigger] final(self).entry(k, n, p, z) == old(self).entry(
                        k,
                        n,
                        p,
                        z,
                    )
                &&& forall|k: Seq<char>| k != key@ ==> #[trigger] final(self).lookup(k) == old(
                    self,
                ).lookup(k)
            },
    {
        let i = match find_key(&self.store, &key) {
            Some(i) => i,
            None => {
                return Err(KvsError::KeyNotFound);
            },
        };
        let log = Log::Rm { key };
        let ghost l = log@;
        let ghost old_store = self.store@;
        let ghost names = self.names();
        let ghost old_images = self.images();
        let ghost old_log = self.log();
        match self.write(log) {
            Err(e) => Err(e),
            Ok(bytes) => {
                self.store.remove(i);
                proof {
                    lemma_located_append(names, old_images, bytes@);
                    lemma_index_remove(old_store, names, old_images, self.images(), old_log, l, i as int);
                    lemma_remove_entries(old_store, i as int);
                    assert forall|k: Seq<char>| #[trigger] latest(self.log(), k) == if l.key() == k {
                        Some(l)
                    } else {
                        latest(old_log, k)
                    } by {
                        lemma_latest_push(old_log, l, k);
                    }
                    if self.indexed(l.key()) {
                        let a = choose|a: int| 0 <= a < self.store@.len() && #[trigger] self.store@[a].0@ == l.key();
                        if a < i {
                            assert(old_store[a] == self.store@[a]);
                            assert(old_store[a].0@ != old_store[i as int].0@);
                        } else {
                            assert(old_store[a + 1] == self.store@[a]);
                            assert(old_store[i as int].0@ != old_store[a + 1].0@);
                        }
                    }
                }
                Ok(bytes)
            },
        }
    }

    /// Each segment's name and bytes, in replay order: what its files hold.
    pub fn segments(&self) -> (r: Vec<(String, Vec<u8>)>)
        ensures
            seg_names(r@) == self.names(),
            seg_images(r@) == self.images(),
    {
        let mut out: Vec<(String, Vec<u8>)> = Vec::new();
        let mut i: usize = 0;
        while i < self.readers.len()
            invariant
                i <= self.readers@.len(),
                out@.len() == i,
                forall|j: int| 0 <= j < i ==> #[trigger] out@[j].0@ == self.readers@[j].0@
                    && out@[j].1@ == self.readers@[j].1.data@,
            decreases self.readers@.len() - i,
        {
            let data = &self.readers[i].1.data;
            let copy = copy_range(data.as_slice(), 0, data.len());
            proof {
                assert(data@.subrange(0, data@.len() as int) =~= data@);
            }
            let name = self.readers[i].0.clone();
            let ghost before = out@;
            out.push((name, copy));
            proof {
                assert forall|j: int| 0 <= j < i + 1 implies #[trigger] out@[j].0@ == self.readers@[j].0@
                    && out@[j].1@ == self.readers@[j].1.data@ by {
                    if j < i {
                        assert(out@[j] == before[j]);
                    }
                }
            }
            i = i + 1;
        }
        proof {
            assert forall|j: int| 0 <= j < i implies seg_images(out@)[j] == self.images()[j] by {
                assert(out@[j].0@ == self.readers@[j].0@);
            }
            assert(seg_names(out@) =~= self.names());
            assert(seg_images(out@) =~= self.images());
        }
        out
    }

    /// Opens a store over `segments`, given as name and bytes in replay order,
    /// and replays them into the index. With no segment, the store starts one,
    /// empty, named `fresh_name`.
    pub fn open(segments: Vec<(String, Vec<u8>)>, fresh_name: String) -> (r: Result<
        KvStore,
        KvsError,
    >)
        requires
            distinct(seg_names(segments@)),
        ensures
            r is Ok <==> forall|i: int|
                0 <= i < segments@.len() ==> parse_log(#[trigger] segments@[i].1@) is Some,
            r matches Err(e) ==> e is MalformedRecord,
            r matches Ok(s) ==> s.wf(),
            r matches Ok(s) ==> forall|k: Seq<char>| #[trigger] s.indexed(k) <==> latest(s.log(), k) is Some,
            r matches Ok(s) ==> forall|k: Seq<char>, n: Seq<char>, p: u64, z: u64|
                #[trigger] s.entry(k, n, p, z) ==> record_start(
                    s.names(),
                    s.images(),
                    n,
                    p,
                    z,
                    latest(s.log(), k)->Some_0,
                    latest_index(s.log(), k),
                ),
            r matches Ok(s) ==> segments@.len() > 0 ==> s.names() == seg_names(segments@)
                && s.images() == seg_images(segments@),
            r matches Ok(s) ==> segments@.len() == 0 ==> s.names() == seq![fresh_name@]
                && s.images() == seq![Seq::<u8>::empty()] && s.log() == Seq::<LogModel>::empty(),
    {
        let ghost fresh = fresh_name@;
        let mut segs = segments;
        if segs.len() == 0 {
            segs.push((fresh_name, Vec::new()));
        }
        let ghost all = segs@;
        let mut readers: Vec<(String, LogReader)> = Vec::new();
        let mut store: Vec<(String, LogReference)> = Vec::new();
        proof {
            assert(reader_images(readers@) =~= Seq::<Seq<u8>>::empty());
            assert(reader_names(readers@) =~= Seq::<Seq<char>>::empty());
            assert(index_ok(store@, reader_names(readers@), reader_images(readers@), log_of(reader_images(readers@))));
            assert(log_of(reader_images(readers@)) =~= Seq::<LogModel>::empty());
        }
        while segs.len() > 0
            invariant
                all.len() > 0,
                distinct(seg_names(all)),
                segments@.len() > 0 ==> all == segments@,
                segments@.len() == 0 ==> all.len() == 1 && all[0].0@ == fresh && all[0].1@ == Seq::<u8>::empty(),
                readers@.len() + segs@.len() == all.len(),
                forall|i: int| 0 <= i < segs@.len() ==> #[trigger] segs@[i] == all[readers@.len() + i],
                forall|i: int| 0 <= i < readers@.len() ==> #[trigger] readers@[i].0@ == all[i].0@
                    && readers@[i].1.data@ == all[i].1@,
                forall|i: int| 0 <= i < readers@.len() ==> parse_log(#[trigger] all[i].1@) is Some,
                index_ok(store@, reader_names(readers@), reader_images(readers@), log_of(reader_images(readers@))),
                index_full(store@, log_of(reader_images(readers@))),
            decreases segs@.len(),
        {
            let ghost segs0 = segs@;
            let seg = segs.remove(0);
            let name = seg.0;
            let reader = LogReader::new(seg.1);
            let ghost rn = reader_names(readers@);
            let ghost ri = reader_images(readers@);
            match process_file(&reader, &mut store, &name, Ghost(rn), Ghost(ri)) {
                Err(e) => {
                    proof {
                        assert(all[readers@.len() as int] == seg);
                        if segments@.len() == 0 {
                            assert(parse_log(Seq::<u8>::empty()) is Some);
                        }
                    }
                    return Err(e);
                },
                Ok(()) => {},
            }
            let ghost old_readers = readers@;
            let ghost nm = name@;
            let ghost rd = reader.data@;
            readers.push((name, reader));
            proof {
                assert forall|i: int| 0 <= i < readers@.len() implies #[trigger] readers@[i].0@ == all[i].0@
                    && readers@[i].1.data@ == all[i].1@ by {
                    if i < old_readers.len() {
                        assert(readers@[i] == old_readers[i]);
                    } else {
                        assert(all[i] == seg);
                        assert(readers@[i].0@ == nm && readers@[i].1.data@ == rd);
                    }
                }
                assert(all[old_readers.len() as int] == seg);
                assert(reader_names(readers@) =~= rn.push(name@));
                assert(reader_images(readers@) =~= ri.push(reader.data@));
                assert forall|i: int| 0 <= i < segs@.len() implies #[trigger] segs@[i] == all[readers@.len() + i] by {
                    assert(segs@[i] == segs0[i + 1]);
                }
            }
        }
        let last: usize = readers.len() - 1;
        let wname = readers[last].0.clone();
        let end: u64 = readers[last].1.data.len() as u64;
        let writer = LogWriter::new(wname, end);
        let s = KvStore { store, writer, readers };
        proof {
            assert(s.names() =~= seg_names(all));
            assert forall|i: int| 0 <= i < all.len() implies s.images()[i] == seg_images(all)[i] by {
                assert(readers@[i].0@ == all[i].0@);
            }
            assert(s.images() =~= seg_images(all));
            assert forall|k: Seq<char>| #[trigger] s.indexed(k) <==> latest(s.log(), k) is Some by {
                lemma_indexed(s, k);
            }
            assert forall|k: Seq<char>, n: Seq<char>, p: u64, z: u64|
                #[trigger] s.entry(k, n, p, z) implies record_start(
                    s.names(),
                    s.images(),
                    n,
                    p,
                    z,
                    latest(s.log(), k)->Some_0,
                    latest_index(s.log(), k),
                ) by {
                lemma_indexed(s, k);
                lemma_entry_exact(s, k, n, p, z);
            }
            assert forall|i: int| 0 <= i < s.images().len() implies parse_log(#[trigger] s.images()[i]) is Some by {
                assert(s.images()[i] == all[i].1@);
            }
            if segments@.len() > 0 {
                assert forall|i: int| 0 <= i < segments@.len() implies parse_log(#[trigger] segments@[i].1@) is Some by {
                    assert(s.images()[i] == all[i].1@);
                }
            } else {
                assert(seg_names(all) =~= seq![fresh]);
                assert(seg_images(all) =~= seq![Seq::<u8>::empty()]);
                let e: Seq<u8> = Seq::empty();
                assert(seq![e].drop_last() =~= Seq::<Seq<u8>>::empty());
                assert(parse_log(e) == Some(Seq::<LogModel>::empty()));
                assert(log_of(seq![e]) =~= Seq::<LogModel>::empty());
            }
        }
        Ok(s)
    }
}

/// Last write wins: after two puts of one key, the key holds the second value,
/// whatever the log held before.
pub proof fn lemma_last_write_wins(log: Seq<LogModel>, k: Seq<char>, a: Seq<char>, b: Seq<char>)
    ensures
        value_of(
            latest(
                log.push(LogModel::Put { key: k, value: a }).push(LogModel::Put { key: k, value: b }),
                k,
            ),
        ) == Some(b),
{
    lemma_latest_push(
        log.push(LogModel::Put { key: k, value: a }),
        LogModel::Put { key: k, value: b },
        k,
    );
}

/// After a removal of a key the key has no value, whatever the log held before.
pub proof fn lemma_remove_hides(log: Seq<LogModel>, k: Seq<char>)
    ensures
        value_of(latest(log.push(LogModel::Rm { key: k }), k)) is None,
{
    lemma_latest_push(log, LogModel::Rm { key: k }, k);
}

/// Replay equivalence: the segments of a store, opened again, all replay, and
/// the reopened store gives every key the value that the store gave it.
pub proof fn lemma_replay_equivalence(s: KvStore, segs: Seq<(String, Vec<u8>)>)
    requires
        s.wf(),
        seg_names(segs) == s.names(),
        seg_images(segs) == s.images(),
    ensures
        segs.len() > 0,
        distinct(seg_names(segs)),
        forall|i: int| 0 <= i < segs.len() ==> parse_log(#[trigger] segs[i].1@) is Some,
        forall|k: Seq<char>| #[trigger] value_of(latest(log_of(seg_images(segs)), k)) == s.lookup(k),
{
    assert forall|i: int| 0 <= i < segs.len() implies parse_log(#[trigger] segs[i].1@) is Some by {
        assert(seg_images(segs)[i] == segs[i].1@);
    }
}

/// What the index says of a key: an entry means the key has a record, and a
/// key with a value has an entry.
pub proof fn lemma_indexed(s: KvStore, k: Seq<char>)
    requires
        s.wf(),
    ensures
        s.indexed(k) ==> latest(s.log(), k) is Some,
        s.lookup(k) is Some ==> s.indexed(k),
{
    if s.indexed(k) {
        let i = choose|i: int| 0 <= i < s.store@.len() && #[trigger] s.store@[i].0@ == k;
        assert(latest(s.log(), s.store@[i].0@) is Some);
    }
    if !s.indexed(k) {
        assert forall|i: int| 0 <= i < s.store@.len() implies s.store@[i].0@ != k by {
            if s.store@[i].0@ == k {
                assert(s.indexed(k));
            }
        }
    }
}

/// An entry of the index is the place where its key's last record starts.
pub proof fn lemma_entry_exact(s: KvStore, k: Seq<char>, n: Seq<char>, p: u64, z: u64)
    requires
        s.wf(),
        s.entry(k, n, p, z),
    ensures
        latest(s.log(), k) is Some,
        record_start(
            s.names(),
            s.images(),
            n,
            p,
            z,
            latest(s.log(), k)->Some_0,
            latest_index(s.log(), k),
        ),
{
    let i = choose|i: int|
        0 <= i < s.store@.len() && #[trigger] s.store@[i].0@ == k && s.store@[i].1.filename@ == n
            && s.store@[i].1.pos == p && s.store@[i].1.size == z;
    assert(latest(s.log(), s.store@[i].0@) is Some);
}

} // verus!
