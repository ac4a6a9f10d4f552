//! The bookkeeping of the store's single writer.
//!
//! The data file is a log of records. The writer keeps, for each live key, the
//! place of the key's last `Set` record, and counts the bytes of the log that
//! no entry of the index points to. It does no I/O: each operation hands back
//! what its caller has to do to the data file, and goes on as if that were
//! done.

use super::index::{lists_entries, Index, IndexReader, Meta};
use super::record::{decode, encode, read_record, Command, CommandView};
use super::record::{lemma_decode_bound, lemma_decode_encode, lemma_decode_extend, lemma_decode_take};
use crate::error::KvsError;
use vstd::prelude::*;

verus! {

/// The number of dangling bytes above which the log is compacted, unless the
/// store was opened with another.
pub const COMPACT_THRESHOLD_BYTES: u64 = 1024 * 1024;

/// The name of the data file in the directory of a store.
pub fn data_file() -> (name: String)
    ensures
        name@ == seq!['d', 'a', 't', 'a'],
{
    let mut name = String::new();
    name.push('d');
    name.push('a');
    name.push('t');
    name.push('a');
    assert(name@ == seq!['d', 'a', 't', 'a']);
    name
}

/// The name of the file that a compaction writes, before it takes the place
/// of the data file: the name of the data file, and `.compact`.
pub fn compact_file() -> (name: String)
    ensures
        name@ == seq!['d', 'a', 't', 'a'] + seq!['.', 'c', 'o', 'm', 'p', 'a', 'c', 't'],
{
    let mut name = data_file();
    name.push('.');
    name.push('c');
    name.push('o');
    name.push('m');
    name.push('p');
    name.push('a');
    name.push('c');
    name.push('t');
    assert(name@ == seq!['d', 'a', 't', 'a'] + seq!['.', 'c', 'o', 'm', 'p', 'a', 'c', 't']);
    name
}

/// What replaying a log gives: the index, the number of bytes of the log that
/// no entry of the index points to, and the length of the log.
pub struct Replayed {
    pub index: Map<Seq<char>, Meta>,
    pub dangling: nat,
    pub cursor: nat,
}

/// The length of the record that `index` holds for `key`; 0 where it holds none.
pub open spec fn displaced(index: Map<Seq<char>, Meta>, key: Seq<char>) -> nat {
    if index.contains_key(key) {
        index[key].1 as nat
    } else {
        0
    }
}

/// The state after a record `c` of `len` bytes that stands at the end of the
/// log replayed so far.
///
/// A `Set` record becomes the entry of its key, and the record that the key
/// had before becomes dangling. A `Remove` record takes the entry of its key
/// out, and both the record that the key had and the `Remove` record itself
/// become dangling.
pub open spec fn step(r: Replayed, c: CommandView, len: nat) -> Replayed {
    match c {
        CommandView::Put { key, .. } => Replayed {
            index: r.index.insert(key, Meta(r.cursor as u64, len as u64)),
            dangling: r.dangling + displaced(r.index, key),
            cursor: r.cursor + len,
        },
        CommandView::Remove { key } => Replayed {
            index: r.index.remove(key),
            dangling: r.dangling + displaced(r.index, key) + len,
            cursor: r.cursor + len,
        },
    }
}

/// Replays the records of `s`, in order, on top of `r`. `None` where `s` is not
/// a sequence of whole records.
pub open spec fn replay_from(r: Replayed, s: Seq<u8>) -> Option<Replayed>
    decreases s.len(),
{
    if s.len() == 0 {
        Some(r)
    } else {
        match decode(s) {
            None => None,
            Some((c, n)) => if 1 <= n <= s.len() {
                replay_from(step(r, c, n), s.skip(n as int))
            } else {
                None
            },
        }
    }
}

/// The state of a store without records.
pub open spec fn empty_store() -> Replayed {
    Replayed { index: Map::empty(), dangling: 0, cursor: 0 }
}

/// Replays a whole log. `None` where the log is not a sequence of whole records.
pub open spec fn replay(log: Seq<u8>) -> Option<Replayed> {
    replay_from(empty_store(), log)
}

/// The record that stands in `log` at exactly the place `m`, if one does.
pub open spec fn record_at(log: Seq<u8>, m: Meta) -> Option<CommandView> {
    if m.0 + m.1 <= log.len() {
        match decode(log.subrange(m.0 as int, m.0 + m.1)) {
            Some((c, n)) => if n == m.1 {
                Some(c)
            } else {
                None
            },
            None => None,
        }
    } else {
        None
    }
}

/// The value of the `Set` record that stands in `log` at exactly the place `m`.
pub open spec fn value_at(log: Seq<u8>, m: Meta) -> Option<Seq<char>> {
    match record_at(log, m) {
        Some(CommandView::Put { value, .. }) => Some(value),
        _ => None,
    }
}

/// What a reader gets for `key`: the value of the record that the index points
/// to, and `None` where the index does not hold the key.
pub open spec fn lookup(log: Seq<u8>, index: Map<Seq<char>, Meta>, key: Seq<char>) -> Option<
    Seq<char>,
> {
    if index.contains_key(key) {
        value_at(log, index[key])
    } else {
        None
    }
}

/// Every entry of `index` points at a `Set` record of its own key that lies
/// within the first `upto` bytes of `log`.
pub open spec fn points_at(log: Seq<u8>, upto: nat, index: Map<Seq<char>, Meta>) -> bool {
    forall|k: Seq<char>| #[trigger]
        index.contains_key(k) ==> index[k].0 + index[k].1 <= upto && (record_at(log, index[k])
            matches Some(CommandView::Put { key, .. }) && key == k)
}

/// `keys` lists the keys of `index`, each once.
pub open spec fn lists_keys(keys: Seq<Seq<char>>, index: Map<Seq<char>, Meta>) -> bool {
    keys.no_duplicates() && forall|k: Seq<char>| index.contains_key(k) <==> keys.contains(k)
}

/// The lengths of the records that `index` holds for `keys`, added up.
pub open spec fn total_len(index: Map<Seq<char>, Meta>, keys: Seq<Seq<char>>) -> nat
    decreases keys.len(),
{
    if keys.len() == 0 {
        0
    } else {
        total_len(index, keys.drop_last()) + index[keys.last()].1 as nat
    }
}

/// The total does not depend on entries of other keys.
pub proof fn lemma_total_len_frame(
    a: Map<Seq<char>, Meta>,
    b: Map<Seq<char>, Meta>,
    keys: Seq<Seq<char>>,
)
    requires
        forall|i: int| 0 <= i < keys.len() ==> a[#[trigger] keys[i]].1 == b[keys[i]].1,
    ensures
        total_len(a, keys) == total_len(b, keys),
    decreases keys.len(),
{
    if keys.len() > 0 {
        let front = keys.drop_last();
        assert(forall|i: int| 0 <= i < front.len() ==> front[i] == keys[i]);
        lemma_total_len_frame(a, b, front);
    }
}

/// Taking one key out of the list takes the length of its record out of the total.
pub proof fn lemma_total_len_remove(index: Map<Seq<char>, Meta>, keys: Seq<Seq<char>>, j: int)
    requires
        0 <= j < keys.len(),
    ensures
        total_len(index, keys) == total_len(index, keys.remove(j)) + index[keys[j]].1,
    decreases keys.len(),
{
    if j == keys.len() - 1 {
        assert(keys.remove(j) == keys.drop_last());
    } else {
        lemma_total_len_remove(index, keys.drop_last(), j);
        assert(keys.drop_last().remove(j) == keys.remove(j).drop_last());
        assert(keys.remove(j).last() == keys.last());
    }
}

/// A list without its `j`-th key still has no key twice, and holds the other keys.
pub proof fn lemma_remove_key(keys: Seq<Seq<char>>, j: int)
    requires
        keys.no_duplicates(),
        0 <= j < keys.len(),
    ensures
        keys.remove(j).no_duplicates(),
        forall|k: Seq<char>| keys.remove(j).contains(k) <==> keys.contains(k) && k != keys[j],
{
    let r = keys.remove(j);
    assert forall|x: int, y: int| 0 <= x < r.len() && 0 <= y < r.len() && x != y implies r[x]
        != r[y] by {
        let xx = if x < j {
            x
        } else {
            x + 1
        };
        let yy = if y < j {
            y
        } else {
            y + 1
        };
        assert(r[x] == keys[xx] && r[y] == keys[yy]);
    }
    assert forall|k: Seq<char>| r.contains(k) <==> keys.contains(k) && k != keys[j] by {
        if r.contains(k) {
            let x = choose|x: int| 0 <= x < r.len() && r[x] == k;
            let xx = if x < j {
                x
            } else {
                x + 1
            };
            assert(keys[xx] == k);
        }
        if keys.contains(k) && k != keys[j] {
            let y = choose|y: int| 0 <= y < keys.len() && keys[y] == k;
            let x = if y < j {
                y
            } else {
                y - 1
            };
            assert(r[x] == k);
        }
    }
}

/// The total is the same in whatever order the keys are listed.
pub proof fn lemma_total_len_order(
    index: Map<Seq<char>, Meta>,
    a: Seq<Seq<char>>,
    b: Seq<Seq<char>>,
)
    requires
        a.no_duplicates(),
        b.no_duplicates(),
        forall|k: Seq<char>| a.contains(k) <==> b.contains(k),
    ensures
        total_len(index, a) == total_len(index, b),
    decreases a.len(),
{
    if a.len() == 0 {
        if b.len() > 0 {
            assert(b.contains(b[0]));
            assert(a.contains(b[0]));
        }
    } else {
        let k = a.last();
        assert(a[a.len() - 1] == k);
        assert(a.contains(k));
        let j = choose|j: int| 0 <= j < b.len() && b[j] == k;
        lemma_total_len_remove(index, b, j);
        lemma_remove_key(b, j);
        lemma_remove_key(a, a.len() - 1);
        assert(a.remove(a.len() - 1) == a.drop_last());
        assert forall|x: Seq<char>| a.drop_last().contains(x) <==> b.remove(j).contains(x) by {
            assert(a.remove(a.len() - 1).contains(x) <==> a.contains(x) && x != k);
            assert(b.remove(j).contains(x) <==> b.contains(x) && x != k);
        }
        lemma_total_len_order(index, a.drop_last(), b.remove(j));
    }
}

/// The total over the first keys of a list is at most the total over all.
pub proof fn lemma_total_len_take(index: Map<Seq<char>, Meta>, keys: Seq<Seq<char>>, i: int)
    requires
        0 <= i <= keys.len(),
    ensures
        total_len(index, keys.take(i)) <= total_len(index, keys),
    decreases keys.len(),
{
    if i == keys.len() {
        assert(keys.take(i) == keys);
    } else {
        lemma_total_len_take(index, keys.drop_last(), i);
        assert(keys.drop_last().take(i) == keys.take(i));
    }
}

/// Replaying a log and then one more record is replaying the longer log.
pub proof fn lemma_replay_append(start: Replayed, log: Seq<u8>, rec: Seq<u8>)
    requires
        replay_from(start, log) is Some,
        decode(rec) matches Some((_, n)) && n == rec.len(),
    ensures
        replay_from(start, log + rec) == Some(
            step(replay_from(start, log)->0, (decode(rec)->0).0, rec.len()),
        ),
    decreases log.len(),
{
    lemma_decode_bound(rec);
    if log.len() == 0 {
        let (c, n) = decode(rec)->0;
        assert(log + rec == rec);
        assert(rec.skip(n as int).len() == 0);
        assert(replay_from(step(start, c, n), rec.skip(n as int)) == Some(step(start, c, n)));
        assert(replay_from(start, log) == Some(start));
    } else {
        let (c, n) = decode(log)->0;
        lemma_decode_extend(log, rec);
        assert((log + rec).skip(n as int) == log.skip(n as int) + rec);
        assert(replay_from(start, log) == replay_from(step(start, c, n), log.skip(n as int)));
        lemma_replay_append(step(start, c, n), log.skip(n as int), rec);
        assert(replay_from(start, log + rec) == replay_from(
            step(start, c, n),
            (log + rec).skip(n as int),
        ));
    }
}

/// Entries that point into a log point at the same records when the log grows.
pub proof fn lemma_points_at_extend(
    log: Seq<u8>,
    ext: Seq<u8>,
    upto: nat,
    index: Map<Seq<char>, Meta>,
)
    requires
        points_at(log, upto, index),
        upto <= log.len(),
    ensures
        points_at(log + ext, upto, index),
        forall|k: Seq<char>| #[trigger]
            index.contains_key(k) ==> record_at(log + ext, index[k]) == record_at(log, index[k]),
{
    assert forall|k: Seq<char>| #[trigger] index.contains_key(k) implies record_at(
        log + ext,
        index[k],
    ) == record_at(log, index[k]) by {
        let m = index[k];
        assert((log + ext).subrange(m.0 as int, m.0 + m.1) == log.subrange(m.0 as int, m.0 + m.1));
    }
}


/// What a `Set` record of `key` and `value` says.
pub open spec fn set_view(key: Seq<char>, value: Seq<char>) -> CommandView {
    CommandView::Put { key, value }
}

/// What a `Remove` record of `key` says.
pub open spec fn remove_view(key: Seq<char>) -> CommandView {
    CommandView::Remove { key }
}

/// The index, the end of the log and the count of dangling bytes, kept in step.
struct Ledger {
    index: Index,
    cursor: u64,
    dangling: u64,
    keys: Ghost<Seq<Seq<char>>>,
}

impl Ledger {
    spec fn state(&self) -> Replayed {
        Replayed {
            index: self.index@,
            dangling: self.dangling as nat,
            cursor: self.cursor as nat,
        }
    }

    spec fn consistent(&self, log: Seq<u8>) -> bool {
        &&& self.cursor <= log.len()
        &&& points_at(log, self.cursor as nat, self.index@)
        &&& lists_keys(self.keys@, self.index@)
        &&& total_len(self.index@, self.keys@) + self.dangling == self.cursor
    }

    fn new() -> (r: Ledger)
        ensures
            r.state() == empty_store(),
            r.keys@ == Seq::<Seq<char>>::empty(),
            forall|log: Seq<u8>| r.consistent(log),
    {
        Ledger { index: Index::new(), cursor: 0, dangling: 0, keys: Ghost(Seq::empty()) }
    }

    fn put(
        &mut self,
        key: String,
        len: u64,
        Ghost(log): Ghost<Seq<u8>>,
        Ghost(value): Ghost<Seq<char>>,
    )
        requires
            old(self).consistent(log),
            old(self).cursor + len <= log.len() <= u64::MAX,
            decode(log.subrange(old(self).cursor as int, old(self).cursor + len)) == Some(
                (set_view(key@, value), len as nat),
            ),
        ensures
            final(self).consistent(log),
            final(self).state() == step(old(self).state(), set_view(key@, value), len as nat),
            final(self).keys@ == (if old(self).index@.contains_key(key@) {
                old(self).keys@
            } else {
                old(self).keys@.push(key@)
            }),
    {
        let ghost k = key@;
        let ghost before = self.index@;
        let ghost listed = self.keys@;
        let at = Meta(self.cursor, len);
        let displaced = self.index.insert(key, at);
        match displaced {
            Some(m) => {
                proof {
                    assert(before.contains_key(k));
                    assert(listed.contains(k));
                    let j = choose|j: int| 0 <= j < listed.len() && listed[j] == k;
                    lemma_total_len_remove(before, listed, j);
                    lemma_total_len_remove(self.index@, listed, j);
                    lemma_remove_key(listed, j);
                    let others = listed.remove(j);
                    assert forall|i: int| 0 <= i < others.len() implies before[#[trigger] others[i]].1
                        == self.index@[others[i]].1 by {
                        assert(others.contains(others[i]));
                    }
                    lemma_total_len_frame(before, self.index@, others);
                }
                self.dangling = self.dangling + m.1;
            },
            None => {
                proof {
                    assert forall|i: int| 0 <= i < listed.len() implies before[#[trigger] listed[i]].1
                        == self.index@[listed[i]].1 by {
                        assert(listed.contains(listed[i]));
                    }
                    lemma_total_len_frame(before, self.index@, listed);
                    let longer = listed.push(k);
                    assert(longer.drop_last() == listed);
                    assert(longer.last() == k);
                    assert(!listed.contains(k));
                    assert forall|i: int, j: int|
                        0 <= i < longer.len() && 0 <= j < longer.len() && i != j implies longer[i]
                        != longer[j] by {
                        if i < listed.len() {
                            assert(listed.contains(listed[i]));
                        }
                        if j < listed.len() {
                            assert(listed.contains(listed[j]));
                        }
                    }
                    assert forall|x: Seq<char>| self.index@.contains_key(x) <==> longer.contains(
                        x,
                    ) by {
                        if longer.contains(x) {
                            let i = choose|i: int| 0 <= i < longer.len() && longer[i] == x;
                            if i < listed.len() {
                                assert(listed[i] == x);
                            }
                        }
                        if x == k {
                            assert(longer[listed.len() as int] == k);
                        } else if listed.contains(x) {
                            let i = choose|i: int| 0 <= i < listed.len() && listed[i] == x;
                            assert(longer[i] == x);
                        }
                    }
                }
                self.keys = Ghost(listed.push(k));
            },
        }
        self.cursor = self.cursor + len;
        proof {
            assert forall|x: Seq<char>| #[trigger] self.index@.contains_key(x) implies self.index@[x].0
                + self.index@[x].1 <= self.cursor && (record_at(log, self.index@[x]) matches Some(
                CommandView::Put { key, .. },
            ) && key == x) by {
                if x != k {
                    assert(before.contains_key(x));
                }
            }
        }
    }

    fn remove(&mut self, key: &str, len: u64, Ghost(log): Ghost<Seq<u8>>)
        requires
            old(self).consistent(log),
            old(self).cursor + len <= log.len() <= u64::MAX,
        ensures
            final(self).consistent(log),
            final(self).state() == step(old(self).state(), remove_view(key@), len as nat),
    {
        let ghost k = key@;
        let ghost before = self.index@;
        let ghost listed = self.keys@;
        let found = self.index.remove(key);
        match found {
            Some(m) => {
                proof {
                    assert(before.contains_key(k));
                    assert(listed.contains(k));
                    let j = choose|j: int| 0 <= j < listed.len() && listed[j] == k;
                    lemma_total_len_remove(before, listed, j);
                    lemma_remove_key(listed, j);
                    let others = listed.remove(j);
                    assert forall|i: int| 0 <= i < others.len() implies before[#[trigger] others[i]].1
                        == self.index@[others[i]].1 by {
                        assert(others.contains(others[i]));
                    }
                    lemma_total_len_frame(before, self.index@, others);
                    assert forall|x: Seq<char>| self.index@.contains_key(x) <==> others.contains(
                        x,
                    ) by {
                        assert(others.contains(x) <==> listed.contains(x) && x != k);
                        assert(before.contains_key(x) <==> listed.contains(x));
                    }
                }
                self.keys = Ghost(listed.remove(choose|j: int| 0 <= j < listed.len() && listed[j] == k));
                self.dangling = self.dangling + m.1 + len;
            },
            None => {
                proof {
                    assert(self.index@ == before);
                }
                self.dangling = self.dangling + len;
            },
        }
        self.cursor = self.cursor + len;
        proof {
            assert forall|x: Seq<char>| #[trigger] self.index@.contains_key(x) implies self.index@[x].0
                + self.index@[x].1 <= self.cursor && (record_at(log, self.index@[x]) matches Some(
                CommandView::Put { key, .. },
            ) && key == x) by {
                assert(before.contains_key(x));
            }
        }
    }
}


/// One of the two slots of the reader registry. The readers read through the
/// slot that is live; a compaction fills the other one, and then makes it live.
#[derive(Clone, Copy, Debug, PartialEq, Eq, Structural)]
pub enum Side {
    Left,
    Right,
}

impl Side {
    /// The other slot.
    pub open spec fn flipped(self) -> Side {
        match self {
            Side::Left => Side::Right,
            Side::Right => Side::Left,
        }
    }

    /// The other slot.
    pub fn other(self) -> (s: Side)
        ensures
            s == self.flipped(),
    {
        match self {
            Side::Left => Side::Right,
            Side::Right => Side::Left,
        }
    }

    /// The number that stands for the slot in the version counter.
    pub fn version(self) -> (v: u32)
        ensures
            v == (if self == Side::Left {
                0u32
            } else {
                1u32
            }),
    {
        match self {
            Side::Left => 0,
            Side::Right => 1,
        }
    }

    /// The slot that the version counter `v` names; no other number than 0 and
    /// 1 names one.
    pub fn from_version(v: u32) -> (s: Option<Side>)
        ensures
            s == (if v == 0 {
                Some(Side::Left)
            } else if v == 1 {
                Some(Side::Right)
            } else {
                None
            }),
    {
        if v == 0 {
            Some(Side::Left)
        } else if v == 1 {
            Some(Side::Right)
        } else {
            None
        }
    }
}

/// The bytes of `log` at the place `m`.
pub open spec fn range_of(log: Seq<u8>, m: Meta) -> Seq<u8> {
    log.subrange(m.0 as int, m.0 + m.1)
}

/// The log that a compaction writes: the records that `index` holds for the
/// keys of `order`, one after the other.
pub open spec fn compacted_log(
    log: Seq<u8>,
    index: Map<Seq<char>, Meta>,
    order: Seq<Seq<char>>,
) -> Seq<u8>
    decreases order.len(),
{
    if order.len() == 0 {
        Seq::empty()
    } else {
        compacted_log(log, index, order.drop_last()) + range_of(log, index[order.last()])
    }
}

/// The index after a compaction: each key of `order` points at its record in
/// the compacted log.
pub open spec fn compacted_index(index: Map<Seq<char>, Meta>, order: Seq<Seq<char>>) -> Map<
    Seq<char>,
    Meta,
>
    decreases order.len(),
{
    if order.len() == 0 {
        Map::empty()
    } else {
        compacted_index(index, order.drop_last()).insert(
            order.last(),
            Meta(total_len(index, order.drop_last()) as u64, index[order.last()].1),
        )
    }
}

/// The text of the `Set` record of `key` and `value`.
pub open spec fn set_record(key: Seq<char>, value: Seq<char>) -> Seq<u8> {
    encode(set_view(key, value))
}

/// The text of the `Remove` record of `key`.
pub open spec fn remove_record(key: Seq<char>) -> Seq<u8> {
    encode(remove_view(key))
}

/// A record that the caller has to append to the data file, and that the
/// writer has not taken into its index yet.
pub struct Pending {
    command: Command,
    record: Vec<u8>,
}

impl Pending {
    /// What the record says.
    pub closed spec fn command(&self) -> CommandView {
        self.command@
    }

    /// The text of the record.
    pub closed spec fn record(&self) -> Seq<u8> {
        self.record@
    }

    /// The text is the text of what the record says.
    pub open spec fn wf(&self) -> bool {
        self.record() == encode(self.command())
    }

    /// The bytes to append to the data file.
    pub fn bytes(&self) -> (b: &[u8])
        ensures
            b@ == self.record(),
    {
        self.record.as_slice()
    }
}

/// The state of the one writer of a store.
pub struct IndexWriter {
    ledger: Ledger,
    threshold: u64,
    side: Side,
    log: Ghost<Seq<u8>>,
}

impl IndexWriter {
    /// The bytes of the data file, if the caller has done to it what each
    /// operation handed back.
    pub closed spec fn log(&self) -> Seq<u8> {
        self.log@
    }

    /// The index: for each live key, the place of its record.
    pub closed spec fn index(&self) -> Map<Seq<char>, Meta> {
        self.ledger.index@
    }

    /// The order in which a compaction would write the live records.
    pub closed spec fn order(&self) -> Seq<Seq<char>> {
        self.ledger.index.order()
    }

    /// The live keys, each once, in some order.
    pub closed spec fn keys(&self) -> Seq<Seq<char>> {
        self.ledger.keys@
    }

    /// The number of bytes of the log that no entry of the index points to.
    pub closed spec fn dangling(&self) -> nat {
        self.ledger.dangling as nat
    }

    /// The offset at which the next record is written.
    pub closed spec fn cursor(&self) -> nat {
        self.ledger.cursor as nat
    }

    /// The number of dangling bytes above which the log is compacted.
    pub closed spec fn threshold(&self) -> nat {
        self.threshold as nat
    }

    /// The slot of the reader registry that is live.
    pub closed spec fn side(&self) -> Side {
        self.side
    }

    /// The index, the count of dangling bytes and the end of the log.
    pub open spec fn state(&self) -> Replayed {
        Replayed { index: self.index(), dangling: self.dangling(), cursor: self.cursor() }
    }

    /// What a reader gets for `key`.
    pub open spec fn value_of(&self, key: Seq<char>) -> Option<Seq<char>> {
        lookup(self.log(), self.index(), key)
    }

    /// The invariant of the writer: replaying the log gives the index and the
    /// count of dangling bytes, every entry of the index points at a `Set`
    /// record of its key, and the log is as long as the live records and the
    /// dangling bytes together.
    pub open spec fn wf(&self) -> bool {
        &&& self.log().len() <= u64::MAX
        &&& self.cursor() == self.log().len()
        &&& replay(self.log()) == Some(self.state())
        &&& points_at(self.log(), self.log().len(), self.index())
        &&& lists_keys(self.keys(), self.index())
        &&& total_len(self.index(), self.keys()) + self.dangling() == self.log().len()
    }

    /// Rebuilds the state of the writer from the bytes of the data file, with
    /// the threshold `COMPACT_THRESHOLD_BYTES`. Fails where the file is not a
    /// sequence of whole records.
    pub fn open(log: &[u8]) -> (r: Result<IndexWriter, KvsError>)
        ensures
            match r {
                Ok(w) => w.wf() && w.log() == log@ && w.threshold() == COMPACT_THRESHOLD_BYTES
                    && w.side() == Side::Left,
                Err(e) => replay(log@) is None && e is Corruption,
            },
    {
        IndexWriter::open_with_threshold(log, COMPACT_THRESHOLD_BYTES)
    }

    /// Rebuilds the state of the writer from the bytes of the data file. Fails
    /// where the file is not a sequence of whole records.
    pub fn open_with_threshold(log: &[u8], threshold: u64) -> (r: Result<IndexWriter, KvsError>)
        ensures
            match r {
                Ok(w) => w.wf() && w.log() == log@ && w.threshold() == threshold && w.side()
                    == Side::Left,
                Err(e) => replay(log@) is None && e is Corruption,
            },
    {
        let mut ledger = Ledger::new();
        let total = log.len();
        let mut pos: usize = 0;
        assert(log@.skip(0) == log@);
        while pos < total
            invariant
                pos <= log@.len() == total,
                ledger.cursor == pos,
                ledger.consistent(log@),
                replay(log@) == replay_from(ledger.state(), log@.skip(pos as int)),
            decreases log@.len() - pos,
        {
            let ghost rest = log@.skip(pos as int);
            match read_record(log, pos) {
                None => {
                    return Err(KvsError::Corruption);
                },
                Some((cmd, next)) => {
                    let len = (next - pos) as u64;
                    proof {
                        lemma_decode_take(rest);
                        assert(rest.take(len as int) == log@.subrange(pos as int, next as int));
                        assert(rest.skip(len as int) == log@.skip(next as int));
                    }
                    match cmd {
                        Command::Put { key, value } => {
                            ledger.put(key, len, Ghost(log@), Ghost(value@));
                        },
                        Command::Remove { key } => {
                            ledger.remove(key.as_str(), len, Ghost(log@));
                        },
                    }
                    pos = next;
                },
            }
        }
        Ok(IndexWriter { ledger, threshold, side: Side::Left, log: Ghost(log@) })
    }

    /// The place of the record of `key`, and `None` where the store does not
    /// hold the key.
    pub fn get(&self, key: &str) -> (found: Option<Meta>)
        ensures
            found == (if self.index().contains_key(key@) {
                Some(self.index()[key@])
            } else {
                None
            }),
    {
        self.ledger.index.get(key)
    }

    /// The first half of giving `key` the value `value`: the record that the
    /// caller has to append to the data file. The index changes when the
    /// record is committed.
    pub fn set(&self, key: String, value: String) -> (pending: Pending)
        ensures
            pending.wf(),
            pending.command() == set_view(key@, value@),
    {
        let command = Command::Put { key, value };
        let record = command.to_bytes();
        Pending { command, record }
    }

    /// The first half of taking `key` out of the store: the record that the
    /// caller has to append to the data file. Fails where the store does not
    /// hold the key; nothing is to be written then.
    pub fn remove(&self, key: String) -> (r: Result<Pending, KvsError>)
        ensures
            match r {
                Ok(pending) => self.index().contains_key(key@) && pending.wf() && pending.command()
                    == remove_view(key@),
                Err(e) => !self.index().contains_key(key@) && e is KeyNotFoundError,
            },
    {
        if self.ledger.index.get(key.as_str()).is_none() {
            return Err(KvsError::KeyNotFoundError);
        }
        let command = Command::Remove { key };
        let record = command.to_bytes();
        Ok(Pending { command, record })
    }

    /// Whether the log has room for the record, so that it can be committed:
    /// the length of a log is a `u64`.
    pub fn fits(&self, pending: &Pending) -> (b: bool)
        requires
            self.wf(),
        ensures
            b == (self.log().len() + pending.record().len() <= u64::MAX),
    {
        pending.record.len() as u64 <= u64::MAX - self.ledger.cursor
    }

    /// The second half of a `set` or a `remove`, for when the caller has
    /// appended the record to the data file: takes the record into the index
    /// and into the count of dangling bytes, as replaying it would.
    pub fn commit(&mut self, pending: Pending)
        requires
            old(self).wf(),
            pending.wf(),
            old(self).log().len() + pending.record().len() <= u64::MAX,
        ensures
            final(self).wf(),
            final(self).log() == old(self).log() + pending.record(),
            final(self).state() == step(
                old(self).state(),
                pending.command(),
                pending.record().len(),
            ),
            final(self).threshold() == old(self).threshold(),
            final(self).side() == old(self).side(),
            pending.command() matches CommandView::Put { key, value } ==> final(self).value_of(key)
                == Some(value),
            pending.command() is Remove ==> final(self).value_of(pending.command().key()) is None,
            forall|k: Seq<char>|
                k != pending.command().key() ==> final(self).value_of(k) == old(self).value_of(k),
    {
        let Pending { command, record } = pending;
        let len = record.len() as u64;
        let ghost before = self.log@;
        let ghost after = before + record@;
        proof {
            lemma_decode_encode(command@, Seq::empty());
            assert(record@ + Seq::<u8>::empty() == record@);
            lemma_replay_append(empty_store(), before, record@);
            lemma_points_at_extend(before, record@, before.len(), self.ledger.index@);
            assert(after.subrange(before.len() as int, before.len() + len) == record@);
        }
        match command {
            Command::Put { key, value } => {
                self.ledger.put(key, len, Ghost(after), Ghost(value@));
            },
            Command::Remove { key } => {
                self.ledger.remove(key.as_str(), len, Ghost(after));
            },
        }
        self.log = Ghost(after);
    }

    /// The slot of the reader registry that is live.
    pub fn live_side(&self) -> (side: Side)
        ensures
            side == self.side(),
    {
        self.side
    }

    /// A handle on the map of the index for readers in other threads. A
    /// reader finds there what has been committed by the time it looks. The
    /// next compaction leaves that map as it is and makes a new one.
    pub fn share_index(&self) -> IndexReader {
        self.ledger.index.share()
    }

    /// Whether the log holds more dangling bytes than the threshold allows.
    pub fn needs_compaction(&self) -> (b: bool)
        ensures
            b == (self.dangling() > self.threshold()),
    {
        self.ledger.dangling > self.threshold
    }
}

impl IndexWriter {
    /// What a compaction makes of this writer: it hands out `ranges`, the
    /// places of the live records in the order of the keys, and leaves the
    /// writer `after`, whose log holds these records one after the other and
    /// nothing else.
    pub open spec fn compacts_to(&self, ranges: Seq<Meta>, after: IndexWriter) -> bool {
        &&& lists_keys(self.order(), self.index())
        &&& ranges.len() == self.order().len()
        &&& forall|i: int|
            0 <= i < ranges.len() ==> ranges[i] == self.index()[#[trigger] self.order()[i]]
        &&& after.log() == compacted_log(self.log(), self.index(), self.order())
        &&& after.index() == compacted_index(self.index(), self.order())
        &&& after.dangling() == 0
        &&& after.log().len() == total_len(self.index(), self.order())
        &&& after.threshold() == self.threshold()
        &&& after.side() == self.side().flipped()
    }

    /// Rewrites the log, whatever it holds of dangling bytes: the new log
    /// holds the live records and nothing else.
    ///
    /// The result lists the places of the live records in the log as it was,
    /// in the order in which the caller has to copy them into the new data
    /// file. The readers get the same value for every key as before, and the
    /// other slot of the reader registry becomes the live one.
    pub fn rewrite(&mut self) -> (plan: Vec<Meta>)
        requires
            old(self).wf(),
        ensures
            final(self).wf(),
            old(self).compacts_to(plan@, *final(self)),
            forall|k: Seq<char>|
                final(self).index().contains_key(k) <==> old(self).index().contains_key(k),
            forall|k: Seq<char>| final(self).value_of(k) == old(self).value_of(k),
    {
        let items = self.ledger.index.entries();
        let ghost old_log = self.log@;
        let ghost old_index = self.ledger.index@;
        let ghost order = self.ledger.index.order();
        proof {
            lemma_total_len_order(old_index, order, self.ledger.keys@);
        }
        let mut next = Ledger::new();
        let mut plan: Vec<Meta> = Vec::new();
        let ghost mut new_log: Seq<u8> = Seq::empty();
        let mut i: usize = 0;
        assert(order.take(0) == Seq::<Seq<char>>::empty());
        while i < items.len()
            invariant
                lists_entries(items@, old_index, order),
                points_at(old_log, old_log.len(), old_index),
                total_len(old_index, order) <= old_log.len() <= u64::MAX,
                i <= items@.len(),
                plan@.len() == i,
                forall|j: int| 0 <= j < i ==> plan@[j] == old_index[#[trigger] order[j]],
                new_log == compacted_log(old_log, old_index, order.take(i as int)),
                next.index@ == compacted_index(old_index, order.take(i as int)),
                next.keys@ == order.take(i as int),
                next.cursor == new_log.len(),
                new_log.len() == total_len(old_index, order.take(i as int)),
                next.dangling == 0,
                next.consistent(new_log),
                replay(new_log) == Some(next.state()),
                forall|k: Seq<char>| #[trigger]
                    next.index@.contains_key(k) ==> old_index.contains_key(k) && record_at(
                        new_log,
                        next.index@[k],
                    ) == record_at(old_log, old_index[k]),
            decreases items@.len() - i,
        {
            let key = items[i].0.clone();
            let meta = items[i].1;
            let len = meta.1;
            let ghost k = order[i as int];
            let ghost rec = range_of(old_log, meta);
            let ghost grown = new_log + rec;
            let ghost shorter = order.take(i as int);
            let ghost longer = order.take(i + 1);
            let ghost value = (decode(rec)->0).0->Put_value;
            proof {
                assert(items@[i as int].0@ == k && meta == old_index[k]);
                assert(order.contains(k));
                assert(old_index.contains_key(k));
                assert(longer.drop_last() == shorter);
                assert(longer.last() == k);
                assert(shorter.push(k) == longer);
                lemma_total_len_take(old_index, order, i + 1);
                assert(decode(rec) == Some((set_view(k, value), len as nat)));
                assert(rec.len() == len);
                lemma_replay_append(empty_store(), new_log, rec);
                lemma_points_at_extend(new_log, rec, new_log.len(), next.index@);
                assert(grown.subrange(new_log.len() as int, new_log.len() + len) == rec);
                assert(!shorter.contains(k)) by {
                    if shorter.contains(k) {
                        let j = choose|j: int| 0 <= j < shorter.len() && shorter[j] == k;
                        assert(order[j] == order[i as int]);
                    }
                }
                assert(!next.index@.contains_key(k));
            }
            let ghost before = next.index@;
            next.put(key, len, Ghost(grown), Ghost(value));
            plan.push(meta);
            proof {
                new_log = grown;
                assert forall|x: Seq<char>| #[trigger] next.index@.contains_key(x) implies old_index.contains_key(x) && record_at(
                    new_log,
                    next.index@[x],
                ) == record_at(old_log, old_index[x]) by {
                    if x != k {
                        assert(before.contains_key(x));
                    }
                }
            }
            i += 1;
        }
        proof {
            assert(order.take(i as int) == order);
            assert forall|x: Seq<char>| next.index@.contains_key(x) <==> old_index.contains_key(
                x,
            ) by {
                assert(old_index.contains_key(x) <==> order.contains(x));
                assert(next.index@.contains_key(x) <==> next.keys@.contains(x));
            }
        }
        self.ledger = next;
        self.log = Ghost(new_log);
        self.side = self.side.other();
        plan
    }

    /// Compacts the log where it holds more dangling bytes than the threshold
    /// allows, and leaves the writer as it is where it does not. Afterwards
    /// the dangling bytes are within the threshold.
    ///
    /// Where the log is compacted, the result lists the places of the live
    /// records in the log as it was, in the order in which the caller has to
    /// copy them into the new data file.
    pub fn compact(&mut self) -> (plan: Option<Vec<Meta>>)
        requires
            old(self).wf(),
        ensures
            final(self).wf(),
            final(self).dangling() <= final(self).threshold(),
            final(self).threshold() == old(self).threshold(),
            plan is Some <==> old(self).dangling() > old(self).threshold(),
            plan is None ==> *final(self) == *old(self),
            plan matches Some(ranges) ==> old(self).compacts_to(ranges@, *final(self)),
            forall|k: Seq<char>|
                final(self).index().contains_key(k) <==> old(self).index().contains_key(k),
            forall|k: Seq<char>| final(self).value_of(k) == old(self).value_of(k),
    {
        if self.needs_compaction() {
            Some(self.rewrite())
        } else {
            None
        }
    }

    /// A whole `set` or `remove`, for when the caller has appended the record
    /// to the data file: commits the record, and then compacts the log where
    /// that is due. Afterwards the dangling bytes are within the threshold.
    ///
    /// Where the log is compacted, the result lists the places of the live
    /// records in the log with the record at its end, in the order in which
    /// the caller has to copy them into the new data file.
    pub fn apply(&mut self, pending: Pending) -> (plan: Option<Vec<Meta>>)
        requires
            old(self).wf(),
            pending.wf(),
            old(self).log().len() + pending.record().len() <= u64::MAX,
        ensures
            final(self).wf(),
            final(self).dangling() <= final(self).threshold(),
            final(self).threshold() == old(self).threshold(),
            plan is Some <==> step(
                old(self).state(),
                pending.command(),
                pending.record().len(),
            ).dangling > old(self).threshold(),
            exists|committed: IndexWriter|
                {
                    &&& #[trigger] committed.wf()
                    &&& committed.log() == old(self).log() + pending.record()
                    &&& committed.state() == step(
                        old(self).state(),
                        pending.command(),
                        pending.record().len(),
                    )
                    &&& committed.threshold() == old(self).threshold()
                    &&& committed.side() == old(self).side()
                    &&& plan is None ==> *final(self) == committed
                    &&& plan matches Some(ranges) ==> committed.compacts_to(ranges@, *final(self))
                },
            pending.command() matches CommandView::Put { key, value } ==> final(self).value_of(key)
                == Some(value),
            pending.command() is Remove ==> final(self).value_of(pending.command().key()) is None,
            forall|k: Seq<char>|
                k != pending.command().key() ==> final(self).value_of(k) == old(self).value_of(k),
    {
        self.commit(pending);
        let ghost committed = *self;
        let plan = self.compact();
        assert(committed.wf());
        plan
    }
}

/// The value of the `Set` record that `record` is. Fails with `Corruption`
/// where `record` is not exactly one record, and with `InvalidCommandError`
/// where it is a record of another kind.
pub fn record_value(record: &[u8]) -> (r: Result<String, KvsError>)
    ensures
        match r {
            Ok(value) => value_at(record@, Meta(0, record@.len() as u64)) == Some(value@),
            Err(e) => value_at(record@, Meta(0, record@.len() as u64)) is None && (
            if record_at(record@, Meta(0, record@.len() as u64)) is Some {
                e is InvalidCommandError
            } else {
                e is Corruption
            }),
        },
{
    let total = record.len();
    assert(record@.skip(0) == record@);
    assert(record@.subrange(0, total as int) == record@);
    match read_record(record, 0) {
        None => Err(KvsError::Corruption),
        Some((cmd, next)) => {
            if next != total {
                Err(KvsError::Corruption)
            } else {
                match cmd {
                    Command::Put { key, value } => Ok(value),
                    Command::Remove { .. } => Err(KvsError::InvalidCommandError),
                }
            }
        },
    }
}

/// A log without records replays to a store without keys.
pub proof fn lemma_replay_empty()
    ensures
        replay(Seq::empty()) == Some(empty_store()),
{
}

/// Replaying the log of a writer gives the index of the writer, its count of
/// dangling bytes, and the length of the log.
pub proof fn lemma_replay_gives_index(w: IndexWriter)
    requires
        w.wf(),
    ensures
        replay(w.log()) == Some(
            Replayed { index: w.index(), dangling: w.dangling(), cursor: w.log().len() },
        ),
{
}

/// The log is as long as the live records and the dangling bytes together, in
/// whatever order the live keys are listed. So while the dangling bytes are
/// within the threshold, the log is at most the threshold longer than the live
/// records.
pub proof fn lemma_log_size(w: IndexWriter, keys: Seq<Seq<char>>)
    requires
        w.wf(),
        lists_keys(keys, w.index()),
    ensures
        w.log().len() == total_len(w.index(), keys) + w.dangling(),
        w.dangling() <= w.threshold() ==> w.log().len() <= total_len(w.index(), keys)
            + w.threshold(),
{
    lemma_total_len_order(w.index(), keys, w.keys());
}

/// A reader that reads exactly the bytes that an entry of the index points to
/// gets the record that stands there.
pub proof fn lemma_read_range(log: Seq<u8>, m: Meta)
    requires
        m.0 + m.1 <= log.len(),
    ensures
        record_at(range_of(log, m), Meta(0, m.1)) == record_at(log, m),
        value_at(range_of(log, m), Meta(0, m.1)) == value_at(log, m),
{
    let range = range_of(log, m);
    assert(range.subrange(0, m.1 as int) == range);
}

/// The index of a writer holds no entry without a value: every entry points at
/// a whole `Set` record of its key that stands in the log.
pub proof fn lemma_entries_have_values(w: IndexWriter, key: Seq<char>)
    requires
        w.wf(),
        w.index().contains_key(key),
    ensures
        w.value_of(key) is Some,
        record_at(w.log(), w.index()[key]) matches Some(c) && c is Put && c.key() == key,
{
}

/// After `key` was given `value`, a reader gets `value` for `key`: the record
/// that is appended to `log` is where the new entry of the index points.
pub proof fn lemma_set_then_get(
    log: Seq<u8>,
    index: Map<Seq<char>, Meta>,
    key: Seq<char>,
    value: Seq<char>,
)
    requires
        log.len() + set_record(key, value).len() <= u64::MAX,
    ensures
        lookup(
            log + set_record(key, value),
            index.insert(key, Meta(log.len() as u64, set_record(key, value).len() as u64)),
            key,
        ) == Some(value),
{
    let rec = set_record(key, value);
    lemma_decode_encode(set_view(key, value), Seq::empty());
    assert(rec + Seq::<u8>::empty() == rec);
    assert((log + rec).subrange(log.len() as int, (log.len() + rec.len()) as int) == rec);
}

/// After `key` was removed, a reader gets nothing for `key`, whatever the log
/// holds.
pub proof fn lemma_remove_then_get(log: Seq<u8>, index: Map<Seq<char>, Meta>, key: Seq<char>)
    ensures
        lookup(log, index.remove(key), key) is None,
{
}

} // verus!
