//! File-name logic: base and directory names, the temporary-name pattern,
//! and which directories a recursive `mkdir` must create.
use vstd::prelude::*;
use vstd::utf8::encode_utf8;
use crate::text::{chars_of, string_of, string_push};

verus! {

/// The parent that std's `Path::parent` gives for the path text `p`, as
/// text, or `None` when the path ends in a root or prefix or is empty.
pub uninterp spec fn path_parent(p: Seq<char>) -> Option<Seq<char>>;

/// The final component that std's `Path::file_name` gives for the path text
/// `p`, as text, or `None` when there is none (the path is empty, is a root,
/// or ends in `..`).
pub uninterp spec fn path_file_name(p: Seq<char>) -> Option<Seq<char>>;

/// `std::path::Path::parent`, displayed as text. The parent drops the final
/// component, so it is shorter than the path; the empty path has none.
#[verifier::external_body]
pub(crate) fn std_path_parent(p: &str) -> (r: Option<String>)
    ensures
        match r {
            Some(q) => path_parent(p@) == Some(q@) && q@.len() < p@.len(),
            None => path_parent(p@) is None,
        },
        p@.len() == 0 ==> r is None,
{
    std::path::Path::new(p).parent().map(|q| format!("{}", q.display()))
}

/// `std::path::Path::file_name`, as text (`OsStr::to_str`).
#[verifier::external_body]
fn std_path_file_name(p: &str) -> (r: Option<String>)
    ensures
        match r {
            Some(q) => path_file_name(p@) == Some(q@),
            None => path_file_name(p@) is None,
        },
{
    std::path::Path::new(p).file_name().and_then(|n| n.to_str()).map(|n| n.to_string())
}

/// The base name given the file name of the path: that name, or the whole
/// path when there is none.
pub fn base_name_or_whole(fname: &str, file_name: Option<String>) -> (r: String)
    ensures
        r@ == match file_name {
            Some(n) => n@,
            None => fname@,
        },
{
    match file_name {
        Some(n) => n,
        None => string_of(chars_of(fname).as_slice()),
    }
}

/// The directory name given the parent of the path: that parent, or `.`
/// when there is none.
pub fn dir_name_or_dot(parent: Option<String>) -> (r: String)
    ensures
        r@ == match parent {
            Some(p) => p@,
            None => seq!['.'],
        },
{
    match parent {
        Some(p) => p,
        None => {
            let mut d = String::new();
            string_push(&mut d, '.');
            d
        },
    }
}

/// The last component of `fname`, or `fname` itself when it has none.
pub fn base_name(fname: &str) -> (r: String)
    ensures
        r@ == match path_file_name(fname@) {
            Some(n) => n,
            None => fname@,
        },
{
    base_name_or_whole(fname, std_path_file_name(fname))
}

/// The directory part of `fname`, or `.` when it has none.
pub fn dir_name(fname: &str) -> (r: String)
    ensures
        r@ == match path_parent(fname@) {
            Some(p) => p,
            None => seq!['.'],
        },
{
    dir_name_or_dot(std_path_parent(fname))
}

// ---------------------------------------------------- temporary-name pattern

/// How a temporary file or directory is to be named.
pub enum TempName {
    /// `prefix`, then `rand_len` random characters, then `suffix`.
    Random { prefix: String, suffix: String, rand_len: usize },
    /// The pattern itself, placed in a fresh temporary directory.
    Whole,
}

/// The index of the first `c` in `s`, or `s.len()` when there is none.
pub open spec fn first_index_of(s: Seq<char>, c: char) -> int
    decreases s.len(),
{
    if s.len() == 0 {
        0
    } else if s[0] == c {
        0
    } else {
        1 + first_index_of(s.drop_first(), c)
    }
}

/// How many `c` follow one another in `s` from index `i` on.
pub open spec fn run_from(s: Seq<char>, c: char, i: int) -> int
    decreases s.len() - i,
{
    if 0 <= i < s.len() && s[i] == c {
        1 + run_from(s, c, i + 1)
    } else {
        0
    }
}

/// The kind of name that a pattern asks for: the first run of `X` marks the
/// random part when it is at least three long; the prefix is what comes
/// before it, the suffix what follows it up to the first line feed.
pub open spec fn temp_name_spec(pattern: Seq<char>) -> Option<(Seq<char>, Seq<char>, int)> {
    let i = first_index_of(pattern, 'X');
    let n = run_from(pattern, 'X', i);
    let rest = pattern.skip(i + n);
    if i < pattern.len() && n >= 3 {
        Some((pattern.take(i), rest.take(first_index_of(rest, '\n')), n))
    } else {
        None
    }
}

/// `first_index_of` points at the first `c`, or past the end when none.
proof fn lemma_first_index_of(s: Seq<char>, c: char)
    ensures
        0 <= first_index_of(s, c) <= s.len(),
        first_index_of(s, c) < s.len() ==> s[first_index_of(s, c)] == c,
        forall|j: int| 0 <= j < first_index_of(s, c) ==> s[j] != c,
    decreases s.len(),
{
    if s.len() > 0 && s[0] != c {
        lemma_first_index_of(s.drop_first(), c);
        assert forall|j: int| 0 <= j < first_index_of(s, c) implies s[j] != c by {
            if j > 0 {
                assert(s[j] == s.drop_first()[j - 1]);
            }
        }
    }
}

/// A scan that stops at the first `c` from `from` on agrees with `first_index_of`.
proof fn lemma_first_index_exact(s: Seq<char>, c: char, k: int)
    requires
        0 <= k <= s.len(),
        forall|j: int| 0 <= j < k ==> s[j] != c,
        k < s.len() ==> s[k] == c,
    ensures
        first_index_of(s, c) == k,
    decreases k,
{
    if k > 0 {
        assert forall|j: int| 0 <= j < k - 1 implies s.drop_first()[j] != c by {
            assert(s.drop_first()[j] == s[j + 1]);
        }
        lemma_first_index_exact(s.drop_first(), c, k - 1);
    }
}

/// The index of the first `c` in `v`, or its length.
fn find_char(v: &[char], c: char) -> (r: usize)
    ensures
        r == first_index_of(v@, c),
{
    let mut i: usize = 0;
    while i < v.len() && v[i] != c
        invariant
            i <= v@.len(),
            forall|j: int| 0 <= j < i ==> v@[j] != c,
        decreases v@.len() - i,
    {
        i = i + 1;
    }
    proof {
        lemma_first_index_exact(v@, c, i as int);
    }
    i
}

/// The length of the run of `c` in `v` starting at `i`.
fn run_length(v: &[char], c: char, i: usize) -> (r: usize)
    requires
        i <= v@.len(),
    ensures
        r == run_from(v@, c, i as int),
        i + r <= v@.len(),
{
    let mut k: usize = i;
    while k < v.len() && v[k] == c
        invariant
            i <= k <= v@.len(),
            run_from(v@, c, i as int) == (k - i) + run_from(v@, c, k as int),
        decreases v@.len() - k,
    {
        k = k + 1;
    }
    k - i
}

/// Reads a temporary-name pattern such as `tmpXXXXXX.log`: a run of at least
/// three `X` is replaced by random characters; otherwise the pattern is used
/// whole.
pub fn parse_temp_pattern(pattern: &str) -> (r: TempName)
    ensures
        match temp_name_spec(pattern@) {
            Some((prefix, suffix, n)) => r matches TempName::Random { prefix: p, suffix: s, rand_len: k }
                && p@ == prefix && s@ == suffix && k == n,
            None => r is Whole,
        },
{
    let v = chars_of(pattern);
    let i = find_char(v.as_slice(), 'X');
    proof {
        lemma_first_index_of(v@, 'X');
    }
    if i == v.len() {
        return TempName::Whole;
    }
    let n = run_length(v.as_slice(), 'X', i);
    if n < 3 {
        return TempName::Whole;
    }
    let rest = &v.as_slice()[i + n..v.len()];
    assert(rest@ == v@.skip(i + n));
    let e = find_char(rest, '\n');
    proof {
        lemma_first_index_of(rest@, '\n');
    }
    let prefix = string_of(&v.as_slice()[0..i]);
    let suffix = string_of(&rest[0..e]);
    assert(v@.subrange(0, i as int) == v@.take(i as int));
    assert(rest@.subrange(0, e as int) == rest@.take(e as int));
    TempName::Random { prefix, suffix, rand_len: n }
}

/// The run of `c` from `i` is made of `c` and stops at the end or at another
/// character.
proof fn lemma_run_from(s: Seq<char>, c: char, i: int)
    requires
        0 <= i <= s.len(),
    ensures
        0 <= run_from(s, c, i),
        i + run_from(s, c, i) <= s.len(),
        forall|j: int| i <= j < i + run_from(s, c, i) ==> s[j] == c,
        i + run_from(s, c, i) < s.len() ==> s[i + run_from(s, c, i)] != c,
    decreases s.len() - i,
{
    if i < s.len() && s[i] == c {
        lemma_run_from(s, c, i + 1);
    }
}

/// A pattern asks for random characters exactly at its first run of `X`,
/// when that run is at least three long: the prefix is all that comes before
/// the run and holds no `X`; the suffix follows the whole run and ends before
/// the first line feed after it. A pattern without `X` is used whole.
pub proof fn lemma_temp_pattern_parts(pattern: Seq<char>)
    ensures
        temp_name_spec(pattern) matches Some((prefix, suffix, n)) ==> {
            &&& n >= 3
            &&& !prefix.contains('X')
            &&& pattern.take(prefix.len() as int) == prefix
            &&& forall|i: int| prefix.len() <= i < prefix.len() + n ==> #[trigger] pattern[i] == 'X'
            &&& prefix.len() + n < pattern.len() ==> pattern[prefix.len() + n] != 'X'
            &&& pattern.subrange(prefix.len() + n, prefix.len() + n + suffix.len()) == suffix
            &&& !suffix.contains('\n')
        },
        !pattern.contains('X') ==> temp_name_spec(pattern) is None,
{
    lemma_first_index_of(pattern, 'X');
    let i = first_index_of(pattern, 'X');
    lemma_run_from(pattern, 'X', i);
    let n = run_from(pattern, 'X', i);
    let rest = pattern.skip(i + n);
    lemma_first_index_of(rest, '\n');
    let e = first_index_of(rest, '\n');
    if i < pattern.len() && n >= 3 {
        let prefix = pattern.take(i);
        let suffix = rest.take(e);
        assert(!prefix.contains('X')) by {
            if prefix.contains('X') {
                let k = choose|k: int| 0 <= k < prefix.len() && prefix[k] == 'X';
                assert(pattern[k] == 'X');
            }
        }
        assert(pattern.subrange(i + n, i + n + e) =~= suffix);
        assert(!suffix.contains('\n')) by {
            if suffix.contains('\n') {
                let k = choose|k: int| 0 <= k < suffix.len() && suffix[k] == '\n';
                assert(rest[k] == '\n');
            }
        }
    }
    if !pattern.contains('X') {
        if i < pattern.len() {
            assert(pattern[i] == 'X');
        }
    }
}

// ------------------------------------------------------------- mkdir chain

/// The path `c`, its parent, the parent's parent, and so on, while the path
/// is longer than one byte and has a parent.
pub open spec fn ancestor_chain_spec(c: Seq<char>) -> Seq<Seq<char>>
    decreases c.len(),
{
    if encode_utf8(c).len() <= 1 {
        Seq::empty()
    } else {
        match path_parent(c) {
            Some(p) => if p.len() < c.len() {
                seq![c] + ancestor_chain_spec(p)
            } else {
                seq![c]
            },
            None => seq![c],
        }
    }
}

/// The paths that creating `canname` walks up through (see
/// `ancestor_chain_spec`).
pub fn ancestor_chain(canname: &str) -> (r: Vec<String>)
    ensures
        r@.map_values(|s: String| s@) == ancestor_chain_spec(canname@),
{
    let mut chain: Vec<String> = Vec::new();
    let mut cur: String = string_of(chars_of(canname).as_slice());
    loop
        invariant
            chain@.map_values(|s: String| s@) + ancestor_chain_spec(cur@) == ancestor_chain_spec(
                canname@,
            ),
        decreases cur@.len(),
    {
        let cs = cur.as_str();
        let blen = cs.as_bytes().len();
        assert(cs@ == cur@);
        if blen <= 1 {
            assert(ancestor_chain_spec(cur@) == Seq::<Seq<char>>::empty());
            assert(chain@.map_values(|s: String| s@) + Seq::<Seq<char>>::empty() == chain@.map_values(
                |s: String| s@,
            ));
            return chain;
        }
        let parent = std_path_parent(cur.as_str());
        let ghost old_chain = chain@;
        let ghost cur_view = cur@;
        match parent {
            Some(p) => {
                let next = p;
                chain.push(cur);
                assert(chain@.map_values(|s: String| s@) =~= old_chain.map_values(|s: String| s@).push(
                    cur_view,
                ));
                assert(chain@.map_values(|s: String| s@) + ancestor_chain_spec(next@) =~= old_chain.map_values(
                    |s: String| s@,
                ) + (seq![cur_view] + ancestor_chain_spec(next@)));
                cur = next;
            },
            None => {
                chain.push(cur);
                assert(chain@.map_values(|s: String| s@) =~= old_chain.map_values(|s: String| s@).push(
                    cur_view,
                ));
                assert(chain@.map_values(|s: String| s@) + Seq::<Seq<char>>::empty() =~= old_chain.map_values(
                    |s: String| s@,
                ) + seq![cur_view]);
                return chain;
            },
        }
    }
}

/// The first index whose flag is set, or the length.
pub open spec fn first_set(flags: Seq<bool>) -> int
    decreases flags.len(),
{
    if flags.len() == 0 || flags[0] {
        0
    } else {
        1 + first_set(flags.drop_first())
    }
}

/// The directories to create, outermost first: the chain up to (not
/// including) its first existing member, in reverse.
pub open spec fn dirs_to_create_spec(chain: Seq<Seq<char>>, exists: Seq<bool>) -> Seq<Seq<char>> {
    chain.take(first_set(exists)).reverse()
}

/// Given the chain of a path (see `ancestor_chain`) and whether each member
/// already exists, the directories to create, outermost first.
pub fn dirs_to_create(chain: &Vec<String>, exists: &Vec<bool>) -> (r: Vec<String>)
    requires
        exists@.len() == chain@.len(),
    ensures
        r@.map_values(|s: String| s@) == dirs_to_create_spec(
            chain@.map_values(|s: String| s@),
            exists@,
        ),
{
    let ghost names = chain@.map_values(|s: String| s@);
    let mut m: usize = 0;
    assert(exists@.skip(0) == exists@);
    while m < exists.len() && !exists[m]
        invariant
            m <= exists@.len(),
            first_set(exists@) == m + first_set(exists@.skip(m as int)),
        decreases exists@.len() - m,
    {
        assert(exists@.skip(m as int).drop_first() == exists@.skip(m + 1));
        m = m + 1;
    }
    assert(first_set(exists@.skip(m as int)) == 0);
    let mut r: Vec<String> = Vec::new();
    let mut k: usize = m;
    while k > 0
        invariant
            k <= m <= chain@.len(),
            names == chain@.map_values(|s: String| s@),
            r@.map_values(|s: String| s@) == names.take(m as int).reverse().take(m - k),
        decreases k,
    {
        let s = string_of(chars_of(chain[k - 1].as_str()).as_slice());
        let ghost before = r@;
        r.push(s);
        proof {
            let target = names.take(m as int).reverse().take(m - k + 1);
            let prev = names.take(m as int).reverse().take(m - k);
            assert(before.map_values(|s: String| s@).len() == before.len());
            assert(prev.len() == m - k);
            assert(before.len() == m - k);
            assert(r@ == before.push(s));
            assert(r@.map_values(|s: String| s@).len() == m - k + 1);
            assert(names[k - 1] == chain@[k - 1]@);
            assert forall|j: int| 0 <= j < target.len() implies r@.map_values(|s: String| s@)[j]
                == target[j] by {
                if j < m - k {
                    assert(before.map_values(|s: String| s@)[j] == names.take(m as int).reverse().take(
                        m - k,
                    )[j]);
                }
            }
            assert(r@.map_values(|s: String| s@) =~= target);
        }
        k = k - 1;
    }
    assert(names.take(m as int).reverse().take(m as int) == names.take(m as int).reverse());
    r
}


// ------------------------------------------------------------------- laws

/// The chain starts at the path, and each member after the first is the
/// parent of the one before; it is empty only for paths of at most one byte.
proof fn lemma_ancestor_chain(c: Seq<char>)
    ensures
        ancestor_chain_spec(c).len() == 0 <==> encode_utf8(c).len() <= 1,
        ancestor_chain_spec(c).len() > 0 ==> ancestor_chain_spec(c)[0] == c,
        forall|i: int|
            0 <= i < ancestor_chain_spec(c).len() - 1 ==> path_parent(
                #[trigger] ancestor_chain_spec(c)[i],
            ) == Some(ancestor_chain_spec(c)[i + 1]),
    decreases c.len(),
{
    if encode_utf8(c).len() > 1 {
        if let Some(p) = path_parent(c) {
            if p.len() < c.len() {
                lemma_ancestor_chain(p);
                let rest = ancestor_chain_spec(p);
                let chain = ancestor_chain_spec(c);
                assert(chain == seq![c] + rest);
                assert forall|i: int| 0 <= i < chain.len() - 1 implies path_parent(
                    #[trigger] chain[i],
                ) == Some(chain[i + 1]) by {
                    if i == 0 {
                        assert(rest.len() > 0) by {
                            if rest.len() == 0 {
                                assert(chain.len() == 1);
                            }
                        }
                        assert(chain[1] == rest[0]);
                    } else {
                        assert(chain[i] == rest[i - 1]);
                        assert(chain[i + 1] == rest[i]);
                    }
                }
            }
        }
    }
}

/// `first_set` points at the first set flag, or past the end when none is.
proof fn lemma_first_set(flags: Seq<bool>)
    ensures
        0 <= first_set(flags) <= flags.len(),
        forall|i: int| 0 <= i < first_set(flags) ==> !flags[i],
        first_set(flags) < flags.len() ==> flags[first_set(flags)],
    decreases flags.len(),
{
    if flags.len() > 0 && !flags[0] {
        lemma_first_set(flags.drop_first());
        if first_set(flags) < flags.len() {
            assert(flags[first_set(flags)] == flags.drop_first()[first_set(flags.drop_first())]);
        }
        assert forall|i: int| 0 <= i < first_set(flags) implies !flags[i] by {
            if i > 0 {
                assert(flags[i] == flags.drop_first()[i - 1]);
            }
        }
    }
}

/// `mkdir_safe` creates only directories that are missing, each one inside
/// the one it created just before (the first inside a directory that
/// exists, or at the top), and last of all the directory asked for.
pub proof fn lemma_dirs_created_in_order(c: Seq<char>, exists: Seq<bool>)
    requires
        exists.len() == ancestor_chain_spec(c).len(),
    ensures
        ({
            let chain = ancestor_chain_spec(c);
            let made = dirs_to_create_spec(chain, exists);
            let m = first_set(exists);
            &&& made.len() == m
            &&& forall|j: int| 0 <= j < made.len() ==> #[trigger] made[j] == chain[m - 1 - j]
                && !exists[m - 1 - j]
            &&& forall|j: int|
                0 < j < made.len() ==> path_parent(#[trigger] made[j]) == Some(made[j - 1])
            &&& m < chain.len() ==> exists[m] && (m > 0 ==> path_parent(chain[m - 1]) == Some(
                chain[m],
            ))
            &&& (encode_utf8(c).len() > 1 && !exists[0]) ==> made.len() >= 1 && made.last() == c
        }),
{
    let chain = ancestor_chain_spec(c);
    lemma_ancestor_chain(c);
    lemma_first_set(exists);
    let m = first_set(exists);
    let made = dirs_to_create_spec(chain, exists);
    assert(made.len() == m);
    assert forall|j: int| 0 <= j < made.len() implies #[trigger] made[j] == chain[m - 1 - j]
        && !exists[m - 1 - j] by {}
    assert forall|j: int| 0 < j < made.len() implies path_parent(#[trigger] made[j]) == Some(
        made[j - 1],
    ) by {
        assert(made[j] == chain[m - 1 - j]);
        assert(made[j - 1] == chain[m - j]);
        assert(path_parent(chain[m - 1 - j]) == Some(chain[m - 1 - j + 1]));
    }
    if m < chain.len() {
        if m > 0 {
            assert(path_parent(chain[m - 1]) == Some(chain[m - 1 + 1]));
        }
    }
    if encode_utf8(c).len() > 1 && !exists[0] {
        assert(m >= 1);
        assert(made.last() == made[m - 1]);
        assert(made[m - 1] == chain[0]);
    }
}

} // verus!
