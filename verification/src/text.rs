//! Character-level string helpers: ASCII case folding, exact equality,
//! and the lexicographic order used for name-sorted listings.
use vstd::prelude::*;

verus! {

/// Folds one character to ASCII lower case; every other character is kept.
pub open spec fn lower_char(c: char) -> char {
    if 65 <= c as u32 && c as u32 <= 90 {
        ((c as u8) + 32) as char
    } else {
        c
    }
}

/// A character sequence folded to ASCII lower case.
pub open spec fn lower_seq(s: Seq<char>) -> Seq<char> {
    s.map_values(|c: char| lower_char(c))
}

/// Folding a character twice is the same as folding it once.
pub proof fn lemma_lower_char_idempotent(c: char)
    ensures
        lower_char(lower_char(c)) == lower_char(c),
{
}

/// Folding a sequence twice is the same as folding it once: stored
/// normalized names stay normalized.
pub proof fn lemma_lower_idempotent(s: Seq<char>)
    ensures
        lower_seq(lower_seq(s)) == lower_seq(s),
{
    assert forall|i: int| 0 <= i < s.len() implies lower_seq(lower_seq(s))[i] == lower_seq(s)[i] by {
        lemma_lower_char_idempotent(s[i]);
    };
    assert(lower_seq(lower_seq(s)) =~= lower_seq(s));
}

/// Relies on str::to_ascii_lowercase: ASCII upper-case letters are mapped
/// to their lower-case equivalents and all other characters are unchanged.
#[verifier::external_body]
pub fn ascii_lower(s: &str) -> (r: String)
    ensures
        r@ == lower_seq(s@),
{
    s.to_ascii_lowercase()
}

/// The longest suffix of `s` that does not contain `sep`: everything
/// after the last separator, or the whole sequence if there is none.
pub open spec fn tail_after_last(s: Seq<char>, sep: char) -> Seq<char>
    decreases s.len(),
{
    if s.len() == 0 {
        s
    } else if s.last() == sep {
        Seq::empty()
    } else {
        tail_after_last(s.drop_last(), sep).push(s.last())
    }
}

/// With no separator anywhere, the tail is the whole sequence.
pub proof fn lemma_tail_none(s: Seq<char>, sep: char)
    requires
        forall|k: int| 0 <= k < s.len() ==> s[k] != sep,
    ensures
        tail_after_last(s, sep) == s,
    decreases s.len(),
{
    if s.len() == 0 {
    } else {
        lemma_tail_none(s.drop_last(), sep);
        assert(tail_after_last(s, sep) =~= s);
    }
}

/// With the last separator at position `d`, the tail is everything
/// after it.
pub proof fn lemma_tail_at(s: Seq<char>, sep: char, d: int)
    requires
        0 <= d < s.len(),
        s[d] == sep,
        forall|j: int| d < j < s.len() ==> s[j] != sep,
    ensures
        tail_after_last(s, sep) == s.subrange(d + 1, s.len() as int),
    decreases s.len(),
{
    if d == s.len() - 1 {
        assert(s.last() == sep);
        assert(tail_after_last(s, sep) =~= s.subrange(d + 1, s.len() as int));
    } else {
        assert(s.last() != sep);
        lemma_tail_at(s.drop_last(), sep, d);
        assert(s.drop_last().subrange(d + 1, s.len() - 1).push(s.last()) =~= s.subrange(
            d + 1,
            s.len() as int,
        ));
    }
}

/// The directory part of a relative path: everything before the last
/// slash, or empty for a top-level path.
pub open spec fn spec_parent_dir(p: Seq<char>) -> Seq<char> {
    if tail_after_last(p, '/').len() == p.len() {
        Seq::empty()
    } else {
        p.subrange(0, p.len() - tail_after_last(p, '/').len() - 1)
    }
}

/// The directory part of a relative path.
pub fn parent_dir(path: &str) -> (r: String)
    ensures
        r@ == spec_parent_dir(path@),
{
    let n = path.unicode_len();
    let mut last_slash: Option<usize> = None;
    let mut i: usize = 0;
    while i < n
        invariant
            n == path@.len(),
            i <= n,
            match last_slash {
                Some(d) => d < i && path@[d as int] == '/' && forall|j: int|
                    d < j < i ==> path@[j] != '/',
                None => forall|j: int| 0 <= j < i ==> path@[j] != '/',
            },
        decreases n - i,
    {
        if path.get_char(i) == '/' {
            last_slash = Some(i);
        }
        i = i + 1;
    }
    match last_slash {
        Some(d) => {
            proof {
                lemma_tail_at(path@, '/', d as int);
            }
            String::from_str(path.substring_char(0, d))
        },
        None => {
            proof {
                lemma_tail_none(path@, '/');
            }
            String::new()
        },
    }
}

/// What `join_path` returns: the child path under a parent directory,
/// with top-level children keeping their bare name.
pub open spec fn spec_join_path(parent: Seq<char>, leaf: Seq<char>) -> Seq<char> {
    if parent.len() == 0 {
        leaf
    } else {
        parent + seq!['/'] + leaf
    }
}

/// Joins a parent directory path and a leaf name.
pub fn join_path(parent: &str, leaf: &str) -> (r: String)
    ensures
        r@ == spec_join_path(parent@, leaf@),
{
    if parent.is_empty() {
        String::from_str(leaf)
    } else {
        proof {
            reveal_strlit("/");
            assert("/"@ =~= seq!['/']);
        }
        let joined = String::from_str(parent).concat("/").concat(leaf);
        assert(joined@ =~= parent@ + seq!['/'] + leaf@);
        joined
    }
}

/// What `path_suffix` returns: the remainder of a path after stripping
/// a directory prefix and its slash; a path that does not lie under the
/// prefix is kept whole.
pub open spec fn spec_path_suffix(path: Seq<char>, prefix: Seq<char>) -> Seq<char> {
    if prefix.len() + 1 <= path.len() && path.subrange(0, prefix.len() as int) == prefix && path[
        prefix.len() as int
    ] == '/' {
        path.subrange(prefix.len() as int + 1, path.len() as int)
    } else {
        path
    }
}

/// Strips a directory prefix (and its slash) from a path.
pub fn path_suffix(path: &str, prefix: &str) -> (r: String)
    ensures
        r@ == spec_path_suffix(path@, prefix@),
{
    let n = path.unicode_len();
    let pn = prefix.unicode_len();
    if pn >= n {
        return String::from_str(path);
    }
    let mut i: usize = 0;
    while i < pn
        invariant
            n == path@.len(),
            pn == prefix@.len(),
            pn + 1 <= n,
            i <= pn,
            forall|j: int| 0 <= j < i ==> path@[j] == prefix@[j],
        decreases pn - i,
    {
        if path.get_char(i) != prefix.get_char(i) {
            proof {
                assert(path@.subrange(0, pn as int)[i as int] == path@[i as int]);
                assert(path@.subrange(0, pn as int) != prefix@);
            }
            return String::from_str(path);
        }
        i = i + 1;
    }
    assert(path@.subrange(0, pn as int) =~= prefix@);
    if path.get_char(pn) != '/' {
        return String::from_str(path);
    }
    String::from_str(path.substring_char(pn + 1, n))
}

/// Plain lexicographic order on character sequences, by code point —
/// "10" sorts before "2", as a string comparison does.
pub open spec fn lex_leq(a: Seq<char>, b: Seq<char>) -> bool
    decreases a.len(),
{
    if a.len() == 0 {
        true
    } else if b.len() == 0 {
        false
    } else if a[0] != b[0] {
        (a[0] as int) < (b[0] as int)
    } else {
        lex_leq(a.drop_first(), b.drop_first())
    }
}

/// Any two sequences are lexicographically comparable.
pub proof fn lemma_lex_total(a: Seq<char>, b: Seq<char>)
    ensures
        lex_leq(a, b) || lex_leq(b, a),
    decreases a.len(),
{
    if a.len() == 0 || b.len() == 0 {
    } else if a[0] != b[0] {
    } else {
        lemma_lex_total(a.drop_first(), b.drop_first());
    }
}

/// Two sequences below each other are equal.
pub proof fn lemma_lex_antisym(a: Seq<char>, b: Seq<char>)
    requires
        lex_leq(a, b),
        lex_leq(b, a),
    ensures
        a == b,
    decreases a.len(),
{
    if a.len() == 0 {
        assert(b.len() == 0);
        assert(a =~= b);
    } else {
        assert(b.len() > 0);
        assert(a[0] == b[0]);
        lemma_lex_antisym(a.drop_first(), b.drop_first());
        assert(a =~= Seq::empty().push(a[0]) + a.drop_first());
        assert(b =~= Seq::empty().push(b[0]) + b.drop_first());
        assert(a =~= b);
    }
}

/// The lexicographic order is transitive.
pub proof fn lemma_lex_trans(a: Seq<char>, b: Seq<char>, c: Seq<char>)
    requires
        lex_leq(a, b),
        lex_leq(b, c),
    ensures
        lex_leq(a, c),
    decreases a.len(),
{
    if a.len() == 0 || b.len() == 0 || c.len() == 0 {
    } else {
        if a[0] == b[0] && b[0] == c[0] {
            lemma_lex_trans(a.drop_first(), b.drop_first(), c.drop_first());
        }
    }
}

/// Compares two strings in plain lexicographic order.
pub fn str_lex_leq(a: &str, b: &str) -> (r: bool)
    ensures
        r == lex_leq(a@, b@),
{
    let a_len = a.unicode_len();
    let b_len = b.unicode_len();
    let mut i: usize = 0;
    proof {
        assert(a@.skip(0) =~= a@);
        assert(b@.skip(0) =~= b@);
    }
    loop
        invariant
            a_len == a@.len(),
            b_len == b@.len(),
            i <= a_len,
            i <= b_len,
            lex_leq(a@, b@) == lex_leq(a@.skip(i as int), b@.skip(i as int)),
        decreases a_len - i,
    {
        if i == a_len {
            assert(a@.skip(i as int).len() == 0);
            return true;
        }
        if i == b_len {
            assert(b@.skip(i as int).len() == 0);
            assert(a@.skip(i as int).len() > 0);
            return false;
        }
        let ca = a.get_char(i);
        let cb = b.get_char(i);
        proof {
            assert(a@.skip(i as int)[0] == a@[i as int]);
            assert(b@.skip(i as int)[0] == b@[i as int]);
        }
        if ca != cb {
            return (ca as u32) < (cb as u32);
        }
        proof {
            assert(a@.skip(i as int).drop_first() =~= a@.skip(i + 1));
            assert(b@.skip(i as int).drop_first() =~= b@.skip(i + 1));
        }
        i = i + 1;
    }
}

/// ASCII whitespace, the separators of a requested tag list.
pub open spec fn is_space(c: char) -> bool {
    c == ' ' || c == '\t' || c == '\n' || c == '\r'
}

/// The position right after the word starting at `i`: the first index
/// at or after `i` that is past the end or holds whitespace.
pub open spec fn word_end(s: Seq<char>, i: int) -> int
    decreases s.len() - i when 0 <= i <= s.len()
{
    if i >= s.len() {
        i
    } else if is_space(s[i]) {
        i
    } else {
        word_end(s, i + 1)
    }
}

/// `word_end` stays within the sequence and moves forward over a
/// non-space character.
pub proof fn lemma_word_end_bounds(s: Seq<char>, i: int)
    requires
        0 <= i <= s.len(),
    ensures
        i <= word_end(s, i) <= s.len(),
        i < s.len() && !is_space(s[i]) ==> word_end(s, i) >= i + 1,
    decreases s.len() - i,
{
    if i >= s.len() {
    } else if is_space(s[i]) {
    } else {
        lemma_word_end_bounds(s, i + 1);
    }
}

/// A run of non-space characters ending at the boundary `j` is exactly
/// the word starting at its first index.
pub proof fn lemma_word_end_at(s: Seq<char>, i: int, j: int)
    requires
        0 <= i <= j <= s.len(),
        forall|k: int| i <= k < j ==> !is_space(s[k]),
        j == s.len() || is_space(s[j]),
    ensures
        word_end(s, i) == j,
    decreases j - i,
{
    if i == j {
    } else {
        assert(!is_space(s[i]));
        lemma_word_end_at(s, i + 1, j);
    }
}

/// The whitespace-separated words of a sequence, from position `i` on.
pub open spec fn words_from(s: Seq<char>, i: int) -> Seq<Seq<char>>
    decreases s.len() - i when 0 <= i <= s.len()
    via words_from_decreases
{
    if i >= s.len() {
        Seq::empty()
    } else if is_space(s[i]) {
        words_from(s, i + 1)
    } else {
        seq![s.subrange(i, word_end(s, i))] + words_from(s, word_end(s, i))
    }
}

#[via_fn]
proof fn words_from_decreases(s: Seq<char>, i: int) {
    if 0 <= i <= s.len() && i < s.len() && !is_space(s[i]) {
        lemma_word_end_bounds(s, i);
    }
}

/// There are never more words than characters.
pub proof fn lemma_words_count(s: Seq<char>, i: int)
    requires
        0 <= i <= s.len(),
    ensures
        words_from(s, i).len() <= s.len() - i,
    decreases s.len() - i,
{
    if i >= s.len() {
    } else if is_space(s[i]) {
        lemma_words_count(s, i + 1);
    } else {
        lemma_word_end_bounds(s, i);
        lemma_words_count(s, word_end(s, i));
    }
}

/// The whitespace-separated words of a string, a space-separated tag
/// list for instance.
pub fn split_words(s: &str) -> (r: Vec<String>)
    ensures
        r.deep_view() == words_from(s@, 0),
{
    let n = s.unicode_len();
    let mut out: Vec<String> = Vec::new();
    let mut i: usize = 0;
    while i < n
        invariant
            n == s@.len(),
            i <= n,
            words_from(s@, 0) == out.deep_view() + words_from(s@, i as int),
        decreases n - i,
    {
        if is_space_char(s.get_char(i)) {
            i = i + 1;
        } else {
            let mut j = i + 1;
            while j < n && !is_space_char(s.get_char(j))
                invariant
                    n == s@.len(),
                    i < j <= n,
                    forall|k: int| i <= k < j ==> !is_space(s@[k]),
                decreases n - j,
            {
                j = j + 1;
            }
            proof {
                lemma_word_end_at(s@, i as int, j as int);
            }
            let ghost prev = out.deep_view();
            let word = String::from_str(s.substring_char(i, j));
            out.push(word);
            proof {
                assert(out.deep_view() =~= prev.push(s@.subrange(i as int, j as int)));
                assert(out.deep_view() + words_from(s@, j as int) =~= prev + (seq![
                    s@.subrange(i as int, word_end(s@, i as int)),
                ] + words_from(s@, word_end(s@, i as int))));
            }
            i = j;
        }
    }
    proof {
        assert(words_from(s@, n as int) =~= Seq::<Seq<char>>::empty());
        assert(out.deep_view() =~= out.deep_view() + words_from(s@, n as int));
    }
    out
}

/// Whether one character is ASCII whitespace.
pub fn is_space_char(c: char) -> (r: bool)
    ensures
        r == is_space(c),
{
    c == ' ' || c == '\t' || c == '\n' || c == '\r'
}

/// Exact character-for-character string equality.
pub fn str_eq(a: &str, b: &str) -> (r: bool)
    ensures
        r == (a@ == b@),
{
    let a_len = a.unicode_len();
    let b_len = b.unicode_len();
    if a_len != b_len {
        return false;
    }
    let mut i: usize = 0;
    while i < a_len
        invariant
            i <= a_len,
            a_len == a@.len(),
            a_len == b@.len(),
            forall|j: int| 0 <= j < i ==> a@[j] == b@[j],
        decreases a_len - i,
    {
        if a.get_char(i) != b.get_char(i) {
            return false;
        }
        i = i + 1;
    }
    proof {
        assert(a@ =~= b@);
    }
    true
}

} // verus!
