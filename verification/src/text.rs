//! Character and string utilities: whitespace trimming, prefix tests,
//! lexicographic ordering of identifiers, path basenames and slide-file
//! names.  Every executable function is specified against a recursive
//! model over `Seq<char>`.

use vstd::prelude::*;

verus! {

/// Whitespace as found around attribute values and labels (the ASCII
/// space characters).
pub open spec fn is_space_char(c: char) -> bool {
    c == ' ' || c == '\t' || c == '\n' || c == '\r' || c == '\u{b}' || c == '\u{c}'
}

fn is_space(c: char) -> (r: bool)
    ensures
        r == is_space_char(c),
{
    c == ' ' || c == '\t' || c == '\n' || c == '\r' || c == '\u{b}' || c == '\u{c}'
}

/// The sequence with leading whitespace removed.
pub open spec fn trim_front(s: Seq<char>) -> Seq<char>
    decreases s.len(),
{
    if s.len() > 0 && is_space_char(s[0]) {
        trim_front(s.drop_first())
    } else {
        s
    }
}

/// The sequence with trailing whitespace removed.
pub open spec fn trim_back(s: Seq<char>) -> Seq<char>
    decreases s.len(),
{
    if s.len() > 0 && is_space_char(s.last()) {
        trim_back(s.drop_last())
    } else {
        s
    }
}

/// The sequence with surrounding whitespace removed.
pub open spec fn trim_spec(s: Seq<char>) -> Seq<char> {
    trim_back(trim_front(s))
}

proof fn lemma_trim_front_skip(s: Seq<char>, i: int)
    requires
        0 <= i <= s.len(),
        forall|k: int| 0 <= k < i ==> is_space_char(s[k]),
    ensures
        trim_front(s) == trim_front(s.skip(i)),
    decreases i,
{
    if i == 0 {
        assert(s.skip(0) =~= s);
    } else {
        assert(s.len() > 0 && is_space_char(s[0]));
        assert(s.drop_first() =~= s.skip(1));
        lemma_trim_front_skip(s.skip(1), i - 1);
        assert(s.skip(1).skip(i - 1) =~= s.skip(i));
    }
}

proof fn lemma_trim_back_take(s: Seq<char>, j: int)
    requires
        0 <= j <= s.len(),
        forall|k: int| j <= k < s.len() ==> is_space_char(s[k]),
    ensures
        trim_back(s) == trim_back(s.take(j)),
    decreases s.len() - j,
{
    if j == s.len() {
        assert(s.take(j) =~= s);
    } else {
        assert(s.len() > 0 && is_space_char(s.last()));
        assert(s.drop_last() =~= s.take(s.len() - 1));
        lemma_trim_back_take(s.take(s.len() - 1), j);
        assert(s.take(s.len() - 1).take(j) =~= s.take(j));
    }
}

/// Remove surrounding whitespace from a string.
pub fn trim_str(s: &str) -> (r: String)
    ensures
        r@ == trim_spec(s@),
{
    let n = s.unicode_len();
    let mut i: usize = 0;
    while i < n && is_space(s.get_char(i))
        invariant
            0 <= i <= n,
            n == s@.len(),
            forall|k: int| 0 <= k < i ==> is_space_char(s@[k]),
        decreases n - i,
    {
        i = i + 1;
    }
    proof {
        lemma_trim_front_skip(s@, i as int);
        if i < n {
            assert(s@.skip(i as int).len() > 0);
            assert(s@.skip(i as int)[0] == s@[i as int]);
            assert(trim_front(s@.skip(i as int)) == s@.skip(i as int));
        } else {
            assert(s@.skip(i as int) =~= Seq::<char>::empty());
            assert(trim_front(s@.skip(i as int)) == s@.skip(i as int));
        }
        assert(trim_front(s@) == s@.skip(i as int));
    }
    let mut j: usize = n;
    while j > i && is_space(s.get_char(j - 1))
        invariant
            i <= j <= n,
            n == s@.len(),
            forall|k: int| j <= k < n ==> is_space_char(s@[k]),
        decreases j,
    {
        j = j - 1;
    }
    let sub = s.substring_char(i, j);
    proof {
        let t = s@.skip(i as int);
        let jj = j - i;
        assert(forall|k: int| jj <= k < t.len() ==> is_space_char(t[k])) by {
            assert(forall|k: int|
                jj <= k < t.len() ==> t[k] == s@[k + i] && j <= k + i < n);
        }
        lemma_trim_back_take(t, jj as int);
        let u = t.take(jj as int);
        if j > i {
            assert(u.len() > 0);
            assert(u.last() == s@[j - 1]);
            assert(!is_space_char(u.last()));
            assert(trim_back(u) == u);
        } else {
            assert(u =~= Seq::<char>::empty());
            assert(trim_back(u) == u);
        }
        assert(trim_spec(s@) == u);
        assert(u =~= s@.subrange(i as int, j as int));
    }
    String::from_str(sub)
}

/// `p` is an initial segment of `s`.
pub open spec fn is_prefix(p: Seq<char>, s: Seq<char>) -> bool {
    p.len() <= s.len() && p == s.subrange(0, p.len() as int)
}

/// Whether `s` begins with `p`.
pub fn starts_with_str(s: &str, p: &str) -> (r: bool)
    ensures
        r == is_prefix(p@, s@),
{
    let ns = s.unicode_len();
    let np = p.unicode_len();
    if np > ns {
        return false;
    }
    let mut k: usize = 0;
    while k < np
        invariant
            0 <= k <= np <= ns,
            ns == s@.len(),
            np == p@.len(),
            forall|t: int| 0 <= t < k ==> p@[t] == s@[t],
        decreases np - k,
    {
        if s.get_char(k) != p.get_char(k) {
            assert(p@[k as int] != s@.subrange(0, np as int)[k as int]);
            return false;
        }
        k = k + 1;
    }
    assert(p@ =~= s@.subrange(0, np as int));
    true
}

/// Whether the two strings hold the same characters.
pub fn str_eq(a: &str, b: &str) -> (r: bool)
    ensures
        r == (a@ == b@),
{
    let na = a.unicode_len();
    let nb = b.unicode_len();
    if na != nb {
        return false;
    }
    let mut k: usize = 0;
    while k < na
        invariant
            0 <= k <= na,
            na == a@.len(),
            na == b@.len(),
            forall|t: int| 0 <= t < k ==> a@[t] == b@[t],
        decreases na - k,
    {
        if a.get_char(k) != b.get_char(k) {
            return false;
        }
        k = k + 1;
    }
    assert(a@ =~= b@);
    true
}

/// Strict lexicographic order on character sequences, by code point.
pub open spec fn str_lt(a: Seq<char>, b: Seq<char>) -> bool
    decreases a.len(),
{
    if b.len() == 0 {
        false
    } else if a.len() == 0 {
        true
    } else if a[0] != b[0] {
        (a[0] as u32) < (b[0] as u32)
    } else {
        str_lt(a.drop_first(), b.drop_first())
    }
}

pub proof fn lemma_str_lt_irreflexive(a: Seq<char>)
    ensures
        !str_lt(a, a),
    decreases a.len(),
{
    if a.len() > 0 {
        lemma_str_lt_irreflexive(a.drop_first());
    }
}

proof fn lemma_char_cast_injective(a: char, b: char)
    requires
        a != b,
    ensures
        (a as u32) != (b as u32),
{
}

pub proof fn lemma_str_lt_connected(a: Seq<char>, b: Seq<char>)
    ensures
        str_lt(a, b) || str_lt(b, a) || a == b,
    decreases a.len(),
{
    if a.len() == 0 && b.len() == 0 {
        assert(a =~= b);
    } else if a.len() > 0 && b.len() > 0 && a[0] != b[0] {
        lemma_char_cast_injective(a[0], b[0]);
    } else if a.len() > 0 && b.len() > 0 && a[0] == b[0] {
        lemma_str_lt_connected(a.drop_first(), b.drop_first());
        if a.drop_first() == b.drop_first() {
            assert(a.drop_first().len() == b.drop_first().len());
            assert(a.len() == b.len());
            assert forall|i: int| 0 <= i < a.len() implies a[i] == b[i] by {
                if i > 0 {
                    assert(a[i] == a.drop_first()[i - 1]);
                    assert(b[i] == b.drop_first()[i - 1]);
                }
            }
            assert(a =~= b);
        }
    }
}

pub proof fn lemma_str_lt_asymmetric(a: Seq<char>, b: Seq<char>)
    requires
        str_lt(a, b),
    ensures
        !str_lt(b, a),
        a != b,
    decreases a.len(),
{
    lemma_str_lt_irreflexive(a);
    if a.len() > 0 && b.len() > 0 && a[0] == b[0] {
        lemma_str_lt_asymmetric(a.drop_first(), b.drop_first());
        assert(a != b) by {
            if a == b {
                lemma_str_lt_irreflexive(a);
            }
        }
    }
}

pub proof fn lemma_str_lt_transitive(a: Seq<char>, b: Seq<char>, c: Seq<char>)
    requires
        str_lt(a, b),
        str_lt(b, c),
    ensures
        str_lt(a, c),
    decreases a.len(),
{
    if c.len() == 0 {
    } else if a.len() == 0 {
    } else if b.len() == 0 {
    } else {
        if a[0] == b[0] && b[0] == c[0] {
            lemma_str_lt_transitive(a.drop_first(), b.drop_first(), c.drop_first());
        }
    }
}

proof fn lemma_str_lt_skip(a: Seq<char>, b: Seq<char>, k: int)
    requires
        0 <= k <= a.len(),
        k <= b.len(),
        forall|t: int| 0 <= t < k ==> a[t] == b[t],
    ensures
        str_lt(a, b) == str_lt(a.skip(k), b.skip(k)),
    decreases k,
{
    if k == 0 {
        assert(a.skip(0) =~= a);
        assert(b.skip(0) =~= b);
    } else {
        assert(a.len() > 0 && b.len() > 0 && a[0] == b[0]);
        assert(a.drop_first() =~= a.skip(1));
        assert(b.drop_first() =~= b.skip(1));
        lemma_str_lt_skip(a.skip(1), b.skip(1), k - 1);
        assert(a.skip(1).skip(k - 1) =~= a.skip(k));
        assert(b.skip(1).skip(k - 1) =~= b.skip(k));
    }
}

/// Whether `a` comes strictly before `b` in lexicographic order.
pub fn str_lt_exec(a: &str, b: &str) -> (r: bool)
    ensures
        r == str_lt(a@, b@),
{
    let na = a.unicode_len();
    let nb = b.unicode_len();
    let mut k: usize = 0;
    loop
        invariant
            0 <= k <= na,
            k <= nb,
            na == a@.len(),
            nb == b@.len(),
            forall|t: int| 0 <= t < k ==> a@[t] == b@[t],
        decreases na - k,
    {
        if k >= na || k >= nb {
            proof {
                lemma_str_lt_skip(a@, b@, k as int);
            }
            return na < nb;
        }
        let ca = a.get_char(k);
        let cb = b.get_char(k);
        if ca != cb {
            proof {
                lemma_str_lt_skip(a@, b@, k as int);
                assert(a@.skip(k as int)[0] == a@[k as int]);
                assert(b@.skip(k as int)[0] == b@[k as int]);
            }
            return (ca as u32) < (cb as u32);
        }
        k = k + 1;
    }
}

/// The part of a path after its last separator; empty when the path is
/// empty or ends in a separator.
pub open spec fn basename_spec(s: Seq<char>) -> Seq<char>
    decreases s.len(),
{
    if s.len() == 0 {
        s
    } else if s.last() == '/' {
        Seq::empty()
    } else {
        basename_spec(s.drop_last()).push(s.last())
    }
}

proof fn lemma_basename_suffix(s: Seq<char>, j: int)
    requires
        0 <= j <= s.len(),
        j == 0 || s[j - 1] == '/',
        forall|k: int| j <= k < s.len() ==> s[k] != '/',
    ensures
        basename_spec(s) =~= s.skip(j),
    decreases s.len() - j,
{
    if s.len() == j {
        if j == 0 {
        } else {
            assert(s.last() == '/');
        }
    } else {
        assert(s.last() != '/');
        lemma_basename_suffix(s.drop_last(), j);
        assert(s.drop_last().skip(j).push(s.last()) =~= s.skip(j));
    }
}

/// The basename of a path: the part after the last `/`.
pub fn basename_str(s: &str) -> (r: String)
    ensures
        r@ == basename_spec(s@),
{
    let n = s.unicode_len();
    let mut j: usize = n;
    while j > 0 && s.get_char(j - 1) != '/'
        invariant
            0 <= j <= n,
            n == s@.len(),
            forall|k: int| j <= k < n ==> s@[k] != '/',
        decreases j,
    {
        j = j - 1;
    }
    proof {
        lemma_basename_suffix(s@, j as int);
        assert(s@.skip(j as int) =~= s@.subrange(j as int, n as int));
    }
    let sub = s.substring_char(j, n);
    String::from_str(sub)
}

/// The index of the last `.` in the sequence, or `-1` when there is none.
pub open spec fn last_dot(s: Seq<char>) -> int
    decreases s.len(),
{
    if s.len() == 0 {
        -1
    } else if s.last() == '.' {
        s.len() - 1
    } else {
        last_dot(s.drop_last())
    }
}

/// A filename with its extension replaced by the slide-file extension
/// `svs`; when the name has no extension, the extension is appended.
/// A lone leading dot marks a hidden name, not an extension.
pub open spec fn slide_name_spec(s: Seq<char>) -> Seq<char> {
    if last_dot(s) >= 1 {
        s.take(last_dot(s)) + ".svs"@
    } else {
        s + ".svs"@
    }
}

proof fn lemma_last_dot_at(s: Seq<char>, j: int)
    requires
        0 <= j <= s.len(),
        j == 0 || s[j - 1] == '.',
        forall|k: int| j <= k < s.len() ==> s[k] != '.',
    ensures
        last_dot(s) == j - 1,
    decreases s.len() - j,
{
    if s.len() == j {
        if j == 0 {
        } else {
            assert(s.last() == '.');
        }
    } else {
        assert(s.last() != '.');
        lemma_last_dot_at(s.drop_last(), j);
    }
}

/// Derive the slide filename from an annotation filename.
pub fn slide_name_str(s: &str) -> (r: String)
    ensures
        r@ == slide_name_spec(s@),
{
    let n = s.unicode_len();
    let mut j: usize = n;
    while j > 0 && s.get_char(j - 1) != '.'
        invariant
            0 <= j <= n,
            n == s@.len(),
            forall|k: int| j <= k < n ==> s@[k] != '.',
        decreases j,
    {
        j = j - 1;
    }
    proof {
        lemma_last_dot_at(s@, j as int);
    }
    let mut r: String = if j >= 2 {
        let sub = s.substring_char(0, j - 1);
        proof {
            assert(s@.subrange(0, j - 1) =~= s@.take(j - 1));
        }
        String::from_str(sub)
    } else {
        let sub = s.substring_char(0, n);
        proof {
            assert(s@.subrange(0, n as int) =~= s@);
        }
        String::from_str(sub)
    };
    r.append(".svs");
    r
}

} // verus!

