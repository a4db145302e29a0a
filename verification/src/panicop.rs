//! Panic-log housekeeping: which `panic_<number>.log` files to remove so
//! that at most a given number stay, and the name of a new log file.
use vstd::prelude::*;
use vstd::relations::{sorted_by, total_ordering};
use crate::numparse::{IntErrorKind, from_str_radix_spec, parse_i64};
use crate::text::{chars_of, string_of, string_push};
use crate::strop::{escape_backslashes, quote_string};

verus! {

/// Why the panic logs could not be sorted out.
#[derive(Clone, Copy, Debug, PartialEq, Eq, Structural)]
pub enum PanicOpError {
    /// The number in a log's name does not fit an `i64`.
    BadLogNumber { kind: IntErrorKind },
}

/// The number part of a panic-log name: the name is `panic_`, then at least
/// one ASCII digit, then one character other than a line feed, then `log`;
/// the digits are the number.
pub open spec fn panic_log_digits(name: Seq<char>) -> Option<Seq<char>> {
    let n = name.len();
    if n >= 11 && name.take(6) == seq!['p', 'a', 'n', 'i', 'c', '_'] && name.skip(n - 3) == seq![
        'l',
        'o',
        'g',
    ] && name[n - 4] != '\n' && (forall|j: int| 6 <= j < n - 4 ==> '0' <= #[trigger] name[j] <= '9') {
        Some(name.subrange(6, n - 4))
    } else {
        None
    }
}

/// The ASCII bytes of a text of ASCII characters.
pub open spec fn ascii_bytes(s: Seq<char>) -> Seq<u8> {
    s.map_values(|c: char| c as u8)
}

/// The logs among `names`, in order, with their numbers; the first log whose
/// number does not fit an `i64` makes it an error.
pub open spec fn log_entries(names: Seq<Seq<char>>) -> Result<Seq<(i64, Seq<char>)>, PanicOpError>
    decreases names.len(),
{
    if names.len() == 0 {
        Ok(Seq::empty())
    } else {
        match log_entries(names.drop_last()) {
            Err(e) => Err(e),
            Ok(es) => match panic_log_digits(names.last()) {
                None => Ok(es),
                Some(d) => match from_str_radix_spec(
                    ascii_bytes(d),
                    10,
                    true,
                    i64::MIN as int,
                    i64::MAX as int,
                ) {
                    Err(kind) => Err(PanicOpError::BadLogNumber { kind }),
                    Ok(v) => Ok(es.push((v as i64, names.last()))),
                },
            },
        }
    }
}

/// Lexicographic order of texts by character code.
pub open spec fn text_le(a: Seq<char>, b: Seq<char>) -> bool
    decreases a.len(),
{
    if a.len() == 0 {
        true
    } else if b.len() == 0 {
        false
    } else if a[0] != b[0] {
        a[0] < b[0]
    } else {
        text_le(a.drop_first(), b.drop_first())
    }
}

/// Logs ordered by number, then by name.
pub open spec fn log_le(a: (i64, Seq<char>), b: (i64, Seq<char>)) -> bool {
    a.0 < b.0 || (a.0 == b.0 && text_le(a.1, b.1))
}

/// How many logs to remove so that `maxcnt` stay (none when `maxcnt` is 0,
/// and `maxcnt` is taken as a `usize`, as the count of logs is).
pub open spec fn removal_count(n: nat, maxcnt: i64) -> nat {
    if maxcnt != 0 && n > (maxcnt as usize) {
        (n - (maxcnt as usize)) as nat
    } else {
        0
    }
}

/// The names of the logs to remove: the logs sorted by number (then name),
/// oldest first, as many as exceed `maxcnt`.
pub open spec fn logs_to_remove_spec(names: Seq<Seq<char>>, maxcnt: i64) -> Result<
    Seq<Seq<char>>,
    PanicOpError,
> {
    if maxcnt == 0 {
        Ok(Seq::empty())
    } else {
        match log_entries(names) {
            Err(e) => Err(e),
            Ok(es) => Ok(
                es.sort_by(|a: (i64, Seq<char>), b: (i64, Seq<char>)| log_le(a, b)).take(
                    removal_count(es.len(), maxcnt) as int,
                ).map_values(|e: (i64, Seq<char>)| e.1),
            ),
        }
    }
}

// ------------------------------------------------------------ text order

proof fn lemma_text_le_reflexive(a: Seq<char>)
    ensures
        text_le(a, a),
    decreases a.len(),
{
    if a.len() > 0 {
        lemma_text_le_reflexive(a.drop_first());
    }
}

proof fn lemma_text_le_total(a: Seq<char>, b: Seq<char>)
    ensures
        text_le(a, b) || text_le(b, a),
    decreases a.len(),
{
    if a.len() > 0 && b.len() > 0 && a[0] == b[0] {
        lemma_text_le_total(a.drop_first(), b.drop_first());
    }
}

proof fn lemma_text_le_antisymmetric(a: Seq<char>, b: Seq<char>)
    requires
        text_le(a, b),
        text_le(b, a),
    ensures
        a == b,
    decreases a.len(),
{
    if a.len() > 0 && b.len() > 0 {
        lemma_text_le_antisymmetric(a.drop_first(), b.drop_first());
        assert(a =~= seq![a[0]] + a.drop_first());
        assert(b =~= seq![b[0]] + b.drop_first());
    }
}

proof fn lemma_text_le_transitive(a: Seq<char>, b: Seq<char>, c: Seq<char>)
    requires
        text_le(a, b),
        text_le(b, c),
    ensures
        text_le(a, c),
    decreases a.len(),
{
    if a.len() > 0 && b.len() > 0 && c.len() > 0 && a[0] == b[0] && b[0] == c[0] {
        lemma_text_le_transitive(a.drop_first(), b.drop_first(), c.drop_first());
    }
}

/// The log order is a total order.
proof fn lemma_log_le_total_ordering()
    ensures
        total_ordering(|a: (i64, Seq<char>), b: (i64, Seq<char>)| log_le(a, b)),
{
    let leq = |a: (i64, Seq<char>), b: (i64, Seq<char>)| log_le(a, b);
    assert forall|a: (i64, Seq<char>)| #[trigger] leq(a, a) by {
        lemma_text_le_reflexive(a.1);
    }
    assert forall|a: (i64, Seq<char>), b: (i64, Seq<char>)| #[trigger] leq(a, b) && #[trigger] leq(
        b,
        a,
    ) implies a == b by {
        if a.0 == b.0 {
            lemma_text_le_antisymmetric(a.1, b.1);
        }
    }
    assert forall|a: (i64, Seq<char>), b: (i64, Seq<char>), c: (i64, Seq<char>)| #[trigger] leq(
        a,
        b,
    ) && #[trigger] leq(b, c) implies leq(a, c) by {
        if a.0 == b.0 && b.0 == c.0 {
            lemma_text_le_transitive(a.1, b.1, c.1);
        }
    }
    assert forall|a: (i64, Seq<char>), b: (i64, Seq<char>)| #[trigger] leq(a, b) || #[trigger] leq(
        b,
        a,
    ) by {
        if a.0 == b.0 {
            lemma_text_le_total(a.1, b.1);
        }
    }
}

/// Compares two texts as `text_le` does.
fn text_le_exec(a: &Vec<char>, b: &Vec<char>) -> (r: bool)
    ensures
        r == text_le(a@, b@),
{
    let mut i: usize = 0;
    assert(a@.skip(0) == a@ && b@.skip(0) == b@);
    while i < a.len() && i < b.len() && a[i] == b[i]
        invariant
            i <= a@.len(),
            i <= b@.len(),
            text_le(a@, b@) == text_le(a@.skip(i as int), b@.skip(i as int)),
        decreases a@.len() - i,
    {
        assert(a@.skip(i as int).drop_first() == a@.skip(i + 1));
        assert(b@.skip(i as int).drop_first() == b@.skip(i + 1));
        i = i + 1;
    }
    if i == a.len() {
        true
    } else if i == b.len() {
        false
    } else {
        assert(a@.skip(i as int)[0] == a@[i as int]);
        assert(b@.skip(i as int)[0] == b@[i as int]);
        a[i] < b[i]
    }
}

/// A log: its number, its name as characters, and its name.
struct LogEntry {
    number: i64,
    chars: Vec<char>,
    name: String,
}

impl LogEntry {
    spec fn key(&self) -> (i64, Seq<char>) {
        (self.number, self.chars@)
    }
}

/// The keys of a list of entries.
spec fn keys_of(es: Seq<LogEntry>) -> Seq<(i64, Seq<char>)> {
    es.map_values(|e: LogEntry| e.key())
}

/// Whether entry `a` comes no later than entry `b`.
fn entry_le(a: &LogEntry, b: &LogEntry) -> (r: bool)
    ensures
        r == log_le(a.key(), b.key()),
{
    a.number < b.number || (a.number == b.number && text_le_exec(&a.chars, &b.chars))
}

/// The number of a log name, when the name is one.
fn log_number(cv: &Vec<char>) -> (r: Option<Result<i64, IntErrorKind>>)
    ensures
        match panic_log_digits(cv@) {
            None => r is None,
            Some(d) => match from_str_radix_spec(
                ascii_bytes(d),
                10,
                true,
                i64::MIN as int,
                i64::MAX as int,
            ) {
                Ok(v) => r == Some(Ok::<i64, IntErrorKind>(v as i64)),
                Err(k) => r == Some(Err::<i64, IntErrorKind>(k)),
            },
        },
{
    let n = cv.len();
    if n < 11 || cv[0] != 'p' || cv[1] != 'a' || cv[2] != 'n' || cv[3] != 'i' || cv[4] != 'c'
        || cv[5] != '_' || cv[n - 3] != 'l' || cv[n - 2] != 'o' || cv[n - 1] != 'g' || cv[n - 4]
        == '\n' {
        proof {
            if n >= 11 && cv@.take(6) == seq!['p', 'a', 'n', 'i', 'c', '_'] {
                assert(cv@.take(6)[0] == cv@[0]);
                assert(cv@.take(6)[5] == cv@[5]);
            }
            if n >= 11 && cv@.skip(n - 3) == seq!['l', 'o', 'g'] {
                assert(cv@.skip(n - 3)[0] == cv@[n - 3]);
            }
        }
        return None;
    }
    assert(cv@.take(6) =~= seq!['p', 'a', 'n', 'i', 'c', '_']);
    assert(cv@.skip(n - 3) =~= seq!['l', 'o', 'g']);
    let mut digits: Vec<u8> = Vec::new();
    let mut j: usize = 6;
    while j < n - 4
        invariant
            6 <= j <= n - 4,
            n == cv@.len(),
            n >= 11,
            forall|m: int| 6 <= m < j ==> '0' <= #[trigger] cv@[m] <= '9',
            digits@ == ascii_bytes(cv@.subrange(6, j as int)),
        decreases n - 4 - j,
    {
        let c = cv[j];
        if c < '0' || c > '9' {
            return None;
        }
        digits.push(c as u8);
        j = j + 1;
        assert(digits@ =~= ascii_bytes(cv@.subrange(6, j as int)));
    }
    match parse_i64(digits.as_slice(), 10) {
        Ok(v) => Some(Ok(v)),
        Err(k) => Some(Err(k)),
    }
}

/// Inserts `e` into the sorted list `sorted`, keeping it sorted.
fn insert_sorted(sorted: &mut Vec<LogEntry>, e: LogEntry)
    requires
        sorted_by(keys_of(old(sorted)@), |a: (i64, Seq<char>), b: (i64, Seq<char>)| log_le(a, b)),
        forall|j: int|
            0 <= j < old(sorted)@.len() ==> #[trigger] old(sorted)@[j].chars@
                == old(sorted)@[j].name@,
        e.chars@ == e.name@,
    ensures
        sorted_by(keys_of(final(sorted)@), |a: (i64, Seq<char>), b: (i64, Seq<char>)| log_le(a, b)),
        keys_of(final(sorted)@).to_multiset() == keys_of(old(sorted)@).to_multiset().insert(e.key()),
        final(sorted)@.len() == old(sorted)@.len() + 1,
        forall|j: int|
            0 <= j < final(sorted)@.len() ==> #[trigger] final(sorted)@[j].chars@
                == final(sorted)@[j].name@,
{
    let ghost leq = |a: (i64, Seq<char>), b: (i64, Seq<char>)| log_le(a, b);
    proof {
        lemma_log_le_total_ordering();
    }
    let mut p: usize = 0;
    while p < sorted.len() && entry_le(&sorted[p], &e)
        invariant
            p <= sorted@.len(),
            sorted@ == old(sorted)@,
            forall|j: int| 0 <= j < p ==> log_le(#[trigger] sorted@[j].key(), e.key()),
        decreases sorted@.len() - p,
    {
        p = p + 1;
    }
    let ghost before = keys_of(sorted@);
    let ghost ek = e.key();
    proof {
        if p < sorted@.len() {
            assert(!log_le(sorted@[p as int].key(), ek));
            assert(leq(ek, before[p as int]) || leq(before[p as int], ek));
        }
    }
    sorted.insert(p, e);
    proof {
        let after = keys_of(sorted@);
        assert(after =~= before.insert(p as int, ek));
        assert forall|i: int, j: int| 0 <= i < j < after.len() implies #[trigger] leq(
            after[i],
            after[j],
        ) by {
            if j < p {
                assert(after[i] == before[i] && after[j] == before[j]);
            } else if j == p {
                assert(after[i] == before[i]);
                assert(log_le(sorted@[i].key(), ek));
            } else if i == p {
                assert(after[j] == before[j - 1]);
                assert(leq(ek, before[p as int]));
                if j - 1 > p {
                    assert(leq(before[p as int], before[j - 1]));
                }
            } else if i < p {
                assert(after[i] == before[i]);
                assert(after[j] == before[j - 1]);
            } else {
                assert(after[i] == before[i - 1]);
                assert(after[j] == before[j - 1]);
            }
        }
        vstd::seq_lib::to_multiset_insert(before, p as int, ek);
        assert(sorted@ == old(sorted)@.insert(p as int, e));
        assert forall|j: int| 0 <= j < sorted@.len() implies #[trigger] sorted@[j].chars@
            == sorted@[j].name@ by {
            if j == p {
                assert(sorted@[j] == e);
            } else if j < p {
                assert(sorted@[j] == old(sorted)@[j]);
                assert(old(sorted)@[j].chars@ == old(sorted)@[j].name@);
            } else {
                assert(sorted@[j] == old(sorted)@[j - 1]);
                assert(old(sorted)@[j - 1].chars@ == old(sorted)@[j - 1].name@);
            }
        }
    }
}

/// The names of the panic logs to remove so that at most `maxcnt` remain:
/// those with the smallest numbers (ties broken by name), oldest first.
/// Names that are not panic logs are ignored.
pub fn panic_logs_to_remove(names: &Vec<String>, maxcnt: i64) -> (r: Result<
    Vec<String>,
    PanicOpError,
>)
    ensures
        match logs_to_remove_spec(names@.map_values(|s: String| s@), maxcnt) {
            Ok(rm) => r matches Ok(v) && v@.map_values(|s: String| s@) == rm,
            Err(e) => r == Err::<Vec<String>, PanicOpError>(e),
        },
{
    let ghost all = names@.map_values(|s: String| s@);
    if maxcnt == 0 {
        return Ok(Vec::new());
    }
    let ghost leq = |a: (i64, Seq<char>), b: (i64, Seq<char>)| log_le(a, b);
    let mut sorted: Vec<LogEntry> = Vec::new();
    let ghost mut found: Seq<(i64, Seq<char>)> = Seq::empty();
    let mut i: usize = 0;
    assert(keys_of(sorted@) =~= found);
    assert(all.take(0) =~= Seq::<Seq<char>>::empty());
    while i < names.len()
        invariant
            i <= names@.len(),
            maxcnt != 0,
            all == names@.map_values(|s: String| s@),
            log_entries(all.take(i as int)) == Ok::<Seq<(i64, Seq<char>)>, PanicOpError>(found),
            sorted_by(keys_of(sorted@), leq),
            leq == |a: (i64, Seq<char>), b: (i64, Seq<char>)| log_le(a, b),
            keys_of(sorted@).to_multiset() == found.to_multiset(),
            found.len() == sorted@.len(),
            forall|j: int| 0 <= j < sorted@.len() ==> #[trigger] sorted@[j].chars@ == sorted@[j].name@,
        decreases names@.len() - i,
    {
        assert(all.take(i + 1).drop_last() == all.take(i as int));
        assert(all.take(i + 1).last() == names@[i as int]@);
        let cv = chars_of(names[i].as_str());
        match log_number(&cv) {
            None => {},
            Some(Ok(v)) => {
                let name = string_of(cv.as_slice());
                let e = LogEntry { number: v, chars: cv, name };
                let ghost ek = e.key();
                let ghost old_sorted = sorted@;
                insert_sorted(&mut sorted, e);
                proof {
                    vstd::seq_lib::to_multiset_build(found, ek);
                    found = found.push(ek);
                }
            },
            Some(Err(k)) => {
                proof {
                    assert(log_entries(all.take(i + 1)) == Err::<
                        Seq<(i64, Seq<char>)>,
                        PanicOpError,
                    >(PanicOpError::BadLogNumber { kind: k }));
                    lemma_log_entries_error(all, i as int);
                }
                return Err(PanicOpError::BadLogNumber { kind: k });
            },
        }
        i = i + 1;
    }
    proof {
        assert(all.take(i as int) == all);
        lemma_log_le_total_ordering();
        found.lemma_sort_by_ensures(leq);
        vstd::seq_lib::lemma_sorted_unique(keys_of(sorted@), found.sort_by(leq), leq);
    }
    let n = sorted.len();
    let m = #[verifier::truncate] (maxcnt as usize);
    let k: usize = if n > m {
        n - m
    } else {
        0
    };
    let mut out: Vec<String> = Vec::new();
    let mut j: usize = 0;
    while j < k
        invariant
            j <= k <= n,
            n == sorted@.len(),
            forall|q: int| 0 <= q < sorted@.len() ==> #[trigger] sorted@[q].chars@ == sorted@[q].name@,
            out@.map_values(|s: String| s@) == keys_of(sorted@).take(j as int).map_values(
                |e: (i64, Seq<char>)| e.1,
            ),
        decreases k - j,
    {
        let name = sorted[j].name.clone();
        let ghost before = out@;
        out.push(name);
        proof {
            assert(keys_of(sorted@)[j as int].1 == sorted@[j as int].chars@);
            let target = keys_of(sorted@).take(j + 1).map_values(|e: (i64, Seq<char>)| e.1);
            let prev = keys_of(sorted@).take(j as int).map_values(|e: (i64, Seq<char>)| e.1);
            assert(before.map_values(|s: String| s@).len() == before.len());
            assert(prev.len() == j);
            assert(out@ == before.push(name));
            assert forall|q: int| 0 <= q < target.len() implies out@.map_values(|s: String| s@)[q]
                == target[q] by {
                if q < j {
                    assert(before.map_values(|s: String| s@)[q] == prev[q]);
                }
            }
            assert(out@.map_values(|s: String| s@) =~= target);
        }
        j = j + 1;
    }
    Ok(out)
}

/// Which logs go: the logs found, put in log order (a rearrangement of them),
/// lose their first `removal_count` members; every removed log comes before
/// every kept one in that order, and for a positive `maxcnt` exactly
/// `maxcnt` logs stay when there were more.
pub proof fn lemma_panic_logs_removed_oldest(names: Seq<Seq<char>>, maxcnt: i64)
    requires
        log_entries(names) is Ok,
    ensures
        ({
            let es = log_entries(names)->Ok_0;
            let sorted = es.sort_by(|a: (i64, Seq<char>), b: (i64, Seq<char>)| log_le(a, b));
            let k = removal_count(es.len(), maxcnt);
            &&& sorted.to_multiset() == es.to_multiset()
            &&& sorted.len() == es.len()
            &&& logs_to_remove_spec(names, maxcnt) == Ok::<Seq<Seq<char>>, PanicOpError>(
                sorted.take(k as int).map_values(|e: (i64, Seq<char>)| e.1),
            )
            &&& k <= es.len()
            &&& 0 < maxcnt <= usize::MAX ==> es.len() - k == (if es.len() < maxcnt {
                es.len() as int
            } else {
                maxcnt as int
            })
            &&& forall|i: int, j: int|
                0 <= i < k <= j < sorted.len() ==> log_le(#[trigger] sorted[i], #[trigger] sorted[j])
        }),
{
    let es = log_entries(names)->Ok_0;
    let leq = |a: (i64, Seq<char>), b: (i64, Seq<char>)| log_le(a, b);
    lemma_log_le_total_ordering();
    es.lemma_sort_by_ensures(leq);
    let sorted = es.sort_by(leq);
    vstd::seq_lib::to_multiset_len(es);
    vstd::seq_lib::to_multiset_len(sorted);
    assert forall|i: int, j: int|
        0 <= i < removal_count(es.len(), maxcnt) <= j < sorted.len() implies log_le(
        #[trigger] sorted[i],
        #[trigger] sorted[j],
    ) by {
        if i < j {
            assert(leq(sorted[i], sorted[j]));
        }
    }
    if maxcnt == 0 {
        assert(sorted.take(0).map_values(|e: (i64, Seq<char>)| e.1) =~= Seq::<Seq<char>>::empty());
    }
}

/// An error at name `i`, after names that all read well, is the error of the whole.
proof fn lemma_log_entries_error(names: Seq<Seq<char>>, i: int)
    requires
        0 <= i < names.len(),
        log_entries(names.take(i)) is Ok,
        log_entries(names.take(i + 1)) is Err,
    ensures
        log_entries(names) == log_entries(names.take(i + 1)),
    decreases names.len() - i,
{
    if i + 1 == names.len() {
        assert(names.take(i + 1) == names);
    } else {
        assert(names.drop_last().take(i) == names.take(i));
        assert(names.drop_last().take(i + 1) == names.take(i + 1));
        lemma_log_entries_error(names.drop_last(), i);
    }
}

/// The path of a new panic log in `dname`, stamped with `times`.
pub fn panic_log_path(dname: &str, times: &str) -> (r: String)
    ensures
        r@ == dname@ + seq!['/', 'p', 'a', 'n', 'i', 'c', '_'] + times@ + seq!['.', 'l', 'o', 'g'],
{
    let mut r = string_of(chars_of(dname).as_slice());
    string_push(&mut r, '/');
    string_push(&mut r, 'p');
    string_push(&mut r, 'a');
    string_push(&mut r, 'n');
    string_push(&mut r, 'i');
    string_push(&mut r, 'c');
    string_push(&mut r, '_');
    let tv = chars_of(times);
    let mut k: usize = 0;
    let ghost head = r@;
    while k < tv.len()
        invariant
            k <= tv@.len(),
            r@ == head + tv@.take(k as int),
        decreases tv@.len() - k,
    {
        string_push(&mut r, tv[k]);
        k = k + 1;
        assert(r@ =~= head + tv@.take(k as int));
    }
    assert(tv@.take(k as int) == tv@);
    string_push(&mut r, '.');
    string_push(&mut r, 'l');
    string_push(&mut r, 'o');
    string_push(&mut r, 'g');
    assert(r@ =~= dname@ + seq!['/', 'p', 'a', 'n', 'i', 'c', '_'] + times@ + seq!['.', 'l', 'o', 'g']);
    r
}


// ------------------------------------------------- cleaning up settles

/// Whether the entry's name is one that `keep` keeps.
spec fn name_kept(keep: spec_fn(Seq<char>) -> bool) -> spec_fn((i64, Seq<char>)) -> bool {
    |e: (i64, Seq<char>)| keep(e.1)
}

/// Whether the entry's name is one that `keep` drops.
spec fn name_dropped(keep: spec_fn(Seq<char>) -> bool) -> spec_fn((i64, Seq<char>)) -> bool {
    |e: (i64, Seq<char>)| !keep(e.1)
}

/// Filtering a sequence filters its multiset alike.
proof fn lemma_filter_to_multiset<A>(s: Seq<A>, f: spec_fn(A) -> bool)
    ensures
        s.filter(f).to_multiset() =~= s.to_multiset().filter(f),
    decreases s.len(),
{
    broadcast use vstd::multiset::group_multiset_axioms;
    broadcast use vstd::seq_lib::group_to_multiset_ensures;
    broadcast use Seq::lemma_filter_push;

    if s.len() == 0 {
        reveal(Seq::filter);
        assert(s.filter(f) == s);
        assert forall|v: A| s.to_multiset().count(v) == 0 by {
            assert(!s.contains(v));
        }
    } else {
        let prev = s.drop_last();
        let x = s.last();
        lemma_filter_to_multiset(prev, f);
        assert(s =~= prev.push(x));
        assert(s.filter(f) == prev.push(x).filter(f));
    }
}

/// Rearranging a sequence keeps the number of items that pass a filter.
proof fn lemma_filter_len_perm<A>(a: Seq<A>, b: Seq<A>, f: spec_fn(A) -> bool)
    requires
        a.to_multiset() == b.to_multiset(),
    ensures
        a.filter(f).len() == b.filter(f).len(),
{
    lemma_filter_to_multiset(a, f);
    lemma_filter_to_multiset(b, f);
    vstd::seq_lib::to_multiset_len(a.filter(f));
    vstd::seq_lib::to_multiset_len(b.filter(f));
}

/// An item passes one of two complementary filters.
proof fn lemma_filter_split<A>(s: Seq<A>, f: spec_fn(A) -> bool, g: spec_fn(A) -> bool)
    requires
        forall|x: A| #[trigger] g(x) == !f(x),
    ensures
        s.filter(f).len() + s.filter(g).len() == s.len(),
    decreases s.len(),
{
    broadcast use Seq::lemma_filter_len_push;

    if s.len() > 0 {
        lemma_filter_split(s.drop_last(), f, g);
        assert(s =~= s.drop_last().push(s.last()));
        assert(g(s.last()) == !f(s.last()));
    }
}

/// When every item passes a filter, all of them stay.
proof fn lemma_filter_all<A>(s: Seq<A>, f: spec_fn(A) -> bool)
    requires
        forall|i: int| 0 <= i < s.len() ==> f(#[trigger] s[i]),
    ensures
        s.filter(f).len() == s.len(),
    decreases s.len(),
{
    broadcast use Seq::lemma_filter_len_push;

    if s.len() > 0 {
        let prev = s.drop_last();
        assert forall|i: int| 0 <= i < prev.len() implies f(#[trigger] prev[i]) by {
            assert(prev[i] == s[i]);
        }
        lemma_filter_all(prev, f);
        assert(s =~= prev.push(s.last()));
        assert(f(s[s.len() - 1]));
    }
}

/// The logs among the names that `keep` keeps are the logs that `keep` keeps.
proof fn lemma_log_entries_filter(names: Seq<Seq<char>>, keep: spec_fn(Seq<char>) -> bool)
    requires
        log_entries(names) is Ok,
    ensures
        log_entries(names.filter(keep)) == Ok::<Seq<(i64, Seq<char>)>, PanicOpError>(
            log_entries(names)->Ok_0.filter(name_kept(keep)),
        ),
    decreases names.len(),
{
    broadcast use Seq::lemma_filter_push;

    if names.len() == 0 {
        reveal(Seq::filter);
        assert(names.filter(keep) =~= names);
        assert(Seq::<(i64, Seq<char>)>::empty().filter(name_kept(keep)) =~= Seq::<
            (i64, Seq<char>),
        >::empty());
    } else {
        let prev = names.drop_last();
        let x = names.last();
        lemma_log_entries_filter(prev, keep);
        let es_prev = log_entries(prev)->Ok_0;
        let es = log_entries(names)->Ok_0;
        let fp = prev.filter(keep);
        assert(names =~= prev.push(x));
        if keep(x) {
            assert(names.filter(keep) == fp.push(x));
            assert(fp.push(x).drop_last() =~= fp);
            assert(fp.push(x).last() == x);
        } else {
            assert(names.filter(keep) == fp);
        }
        match panic_log_digits(x) {
            None => {
                assert(es == es_prev);
            },
            Some(d) => {
                let v = from_str_radix_spec(
                    ascii_bytes(d),
                    10,
                    true,
                    i64::MIN as int,
                    i64::MAX as int,
                )->Ok_0;
                assert(es == es_prev.push((v as i64, x)));
                assert(es.filter(name_kept(keep)) == es_prev.push((v as i64, x)).filter(
                    name_kept(keep),
                ));
            },
        }
    }
}

/// Cleaning up twice removes nothing the second time: once the logs named
/// for removal are gone, the logs left are named for removal no more.
pub proof fn lemma_cleanup_settles(names: Seq<Seq<char>>, maxcnt: i64)
    requires
        log_entries(names) is Ok,
    ensures
        logs_to_remove_spec(names, maxcnt) matches Ok(rm) && logs_to_remove_spec(
            names.filter(|n: Seq<char>| !rm.contains(n)),
            maxcnt,
        ) == Ok::<Seq<Seq<char>>, PanicOpError>(Seq::empty()),
{
    let es = log_entries(names)->Ok_0;
    let leq = |a: (i64, Seq<char>), b: (i64, Seq<char>)| log_le(a, b);
    let sorted = es.sort_by(leq);
    let k = removal_count(es.len(), maxcnt);
    lemma_panic_logs_removed_oldest(names, maxcnt);
    let rm = sorted.take(k as int).map_values(|e: (i64, Seq<char>)| e.1);
    assert(logs_to_remove_spec(names, maxcnt) == Ok::<Seq<Seq<char>>, PanicOpError>(rm));
    if maxcnt != 0 {
        let keep = |n: Seq<char>| !rm.contains(n);
        lemma_log_entries_filter(names, keep);
        let es2 = es.filter(name_kept(keep));
        lemma_filter_split(es, name_kept(keep), name_dropped(keep));
        lemma_filter_len_perm(es, sorted, name_dropped(keep));
        sorted.lemma_filter_take_len(name_dropped(keep), k as int);
        assert forall|i: int| 0 <= i < sorted.take(k as int).len() implies name_dropped(keep)(
            #[trigger] sorted.take(k as int)[i],
        ) by {
            assert(rm[i] == sorted[i].1);
            assert(rm.contains(sorted[i].1));
        }
        lemma_filter_all(sorted.take(k as int), name_dropped(keep));
        assert(es2.len() + k <= es.len());
        assert(removal_count(es2.len(), maxcnt) == 0);
        lemma_log_le_total_ordering();
        es2.lemma_sort_by_ensures(leq);
        assert(es2.sort_by(leq).take(0).map_values(|e: (i64, Seq<char>)| e.1) =~= Seq::<
            Seq<char>,
        >::empty());
    }
}

/// The name of a log that the panic hook writes, `panic_<stamp>.log`, is one
/// that the cleanup recognizes, with the stamp as its number, whenever the
/// stamp is a non-empty run of decimal digits.
pub proof fn lemma_log_name_recognized(stamp: Seq<char>)
    requires
        stamp.len() >= 1,
        forall|i: int| 0 <= i < stamp.len() ==> '0' <= #[trigger] stamp[i] <= '9',
    ensures
        panic_log_digits(
            seq!['p', 'a', 'n', 'i', 'c', '_'] + stamp + seq!['.', 'l', 'o', 'g'],
        ) == Some(stamp),
{
    let name = seq!['p', 'a', 'n', 'i', 'c', '_'] + stamp + seq!['.', 'l', 'o', 'g'];
    let n = name.len();
    assert(name.take(6) =~= seq!['p', 'a', 'n', 'i', 'c', '_']);
    assert(name.skip(n - 3) =~= seq!['l', 'o', 'g']);
    assert(name[n - 4] == '.');
    assert forall|j: int| 6 <= j < n - 4 implies '0' <= #[trigger] name[j] <= '9' by {
        assert(name[j] == stamp[j - 6]);
    }
    assert(name.subrange(6, n - 4) =~= stamp);
}

// ------------------------------------------------------- the options

/// The panic options' JSON, up to the value of `panicdir`.
pub const PANIC_OPTIONS_HEAD: &'static str = "\n\t{\n\t\t\"panicdir\" : ";

/// The panic options' JSON after the value of `panicdir`: panic handling
/// on, a stack dump at verbosity 3, no copy to standard error, and no limit
/// on the number of logs.
pub const PANIC_OPTIONS_TAIL: &'static str = ",\n\t\t\"panicenable##if false will no panic handle##\" : true,\n\t\t\"panicverbose##3 for dump stack##\" : 3,\n\t\t\"panicstderr##to flush output to stderr ##\" : false,\n\t\t\"panicmaxcnt##to specified whether count file to clean##\" : 0\n\t}\n\t";

/// Appends the characters of `t` to `r`.
fn push_all(r: &mut String, t: &str)
    ensures
        final(r)@ == old(r)@ + t@,
{
    let v = chars_of(t);
    let ghost head = r@;
    let mut k: usize = 0;
    while k < v.len()
        invariant
            k <= v@.len(),
            r@ == head + v@.take(k as int),
        decreases v@.len() - k,
    {
        string_push(r, v[k]);
        k = k + 1;
        assert(r@ =~= head + v@.take(k as int));
    }
    assert(v@.take(k as int) == v@);
}

/// The JSON that declares the panic options, with `exec_dir`, quoted, as the
/// default panic folder.
pub fn panic_options_json(exec_dir: &str) -> (r: String)
    ensures
        r@ == PANIC_OPTIONS_HEAD@ + (seq!['"'] + escape_backslashes(exec_dir@) + seq!['"'])
            + PANIC_OPTIONS_TAIL@,
{
    let quoted = match quote_string(exec_dir) {
        Ok(q) => q,
        Err(_) => {
            proof {
                assert(false);
            }
            String::new()
        },
    };
    let mut r = String::new();
    push_all(&mut r, PANIC_OPTIONS_HEAD);
    push_all(&mut r, quoted.as_str());
    push_all(&mut r, PANIC_OPTIONS_TAIL);
    assert(r@ =~= PANIC_OPTIONS_HEAD@ + (seq!['"'] + escape_backslashes(exec_dir@) + seq!['"'])
        + PANIC_OPTIONS_TAIL@);
    r
}

} // verus!
