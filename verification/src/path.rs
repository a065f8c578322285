//! The path tokenizer: splitting a path string into segment strings at each
//! occurrence of the configured separator, and reading a segment as an array
//! index.

use vstd::prelude::*;

verus! {

/// The separator used to split paths into segments. The default is `"."`;
/// it may be changed at run time and must never be empty.
pub struct PathSeparator {
    sep: String,
}

impl View for PathSeparator {
    type V = Seq<char>;

    closed spec fn view(&self) -> Seq<char> {
        self.sep@
    }
}

/// The separator a fresh `PathSeparator` holds.
pub open spec fn default_separator() -> Seq<char> {
    seq!['.']
}

impl PathSeparator {
    #[verifier::type_invariant]
    spec fn type_inv(self) -> bool {
        self.sep@.len() >= 1
    }

    /// A separator configuration holding the default separator `"."`.
    pub fn new() -> (r: Self)
        ensures
            r@ == default_separator(),
    {
        let sep = String::from_str(".");
        proof {
            reveal_strlit(".");
            assert(sep@ =~= default_separator());
        }
        PathSeparator { sep }
    }

    /// Change the separator used to split paths. A separator must be a
    /// non-empty string: with an empty one, "the text between occurrences
    /// of the separator" would mean nothing.
    pub fn change(&mut self, path_separator: &str)
        requires
            path_separator@.len() >= 1,
        ensures
            final(self)@ == path_separator@,
    {
        *self = PathSeparator { sep: String::from_str(path_separator) };
    }

    /// The separator currently configured; it is never empty.
    pub fn get(&self) -> (r: &str)
        ensures
            r@ == self@,
            r@.len() >= 1,
    {
        proof {
            use_type_invariant(self);
        }
        self.sep.as_str()
    }
}

/// True when `sep` occurs in `s` starting at position `at`.
pub open spec fn match_at(s: Seq<char>, sep: Seq<char>, at: int) -> bool {
    &&& 0 <= at
    &&& at + sep.len() <= s.len()
    &&& s.subrange(at, at + sep.len()) == sep
}

/// The pieces of `s` between non-overlapping, leftmost-first occurrences of
/// the separator `sep`. There is always at least one piece; a separator at
/// the very start or end, or two adjacent ones, yield an empty piece.
pub open spec fn split_segments(s: Seq<char>, sep: Seq<char>) -> Seq<Seq<char>>
    decreases s.len(),
{
    if sep.len() == 0 {
        seq![s]
    } else if s.len() == 0 {
        seq![Seq::<char>::empty()]
    } else if s.len() >= sep.len() && s.take(sep.len() as int) == sep {
        seq![Seq::<char>::empty()] + split_segments(s.skip(sep.len() as int), sep)
    } else {
        let rest = split_segments(s.skip(1), sep);
        seq![seq![s[0]] + rest[0]] + rest.skip(1)
    }
}

/// A split yields at least one piece.
pub proof fn lemma_split_nonempty(s: Seq<char>, sep: Seq<char>)
    ensures
        split_segments(s, sep).len() >= 1,
    decreases s.len(),
{
    if sep.len() == 0 || s.len() == 0 {
    } else if s.len() >= sep.len() && s.take(sep.len() as int) == sep {
    } else {
        lemma_split_nonempty(s.skip(1), sep);
    }
}

/// The segments of a path string: the empty path has no segments and
/// addresses the root itself; any other path splits at the separator.
pub open spec fn spec_segments(path: Seq<char>, sep: Seq<char>) -> Seq<Seq<char>> {
    if path.len() == 0 {
        Seq::empty()
    } else {
        split_segments(path, sep)
    }
}

/// The views of a vector of segment strings.
pub open spec fn seg_views(segs: Seq<String>) -> Seq<Seq<char>> {
    segs.map_values(|s: String| s@)
}

/// Splitting at the first separator occurrence: when `sep` matches at `at`
/// and nowhere earlier, the first piece is everything before `at` and the
/// remaining pieces split the text after the occurrence.
pub proof fn lemma_split_at_first_match(s: Seq<char>, sep: Seq<char>, at: int)
    requires
        sep.len() >= 1,
        match_at(s, sep, at),
        forall|j: int| 0 <= j < at ==> !match_at(s, sep, j),
    ensures
        split_segments(s, sep) =~= seq![s.take(at)] + split_segments(
            s.skip(at + sep.len()),
            sep,
        ),
    decreases at,
{
    if at == 0 {
        assert(s.len() >= sep.len() && s.take(sep.len() as int) == sep);
        assert(s.take(0) =~= Seq::<char>::empty());
    } else {
        assert(!match_at(s, sep, 0));
        assert(s.len() >= 1);
        assert(!(s.len() >= sep.len() && s.take(sep.len() as int) == sep)) by {
            if s.len() >= sep.len() && s.take(sep.len() as int) == sep {
                assert(s.subrange(0, sep.len() as int) =~= s.take(sep.len() as int));
            }
        }
        let t = s.skip(1);
        assert(match_at(t, sep, at - 1)) by {
            assert(t.subrange(at - 1, at - 1 + sep.len()) =~= s.subrange(at, at + sep.len()));
        }
        assert forall|j: int| 0 <= j < at - 1 implies !match_at(t, sep, j) by {
            if match_at(t, sep, j) {
                assert(s.subrange(j + 1, j + 1 + sep.len()) =~= t.subrange(j, j + sep.len()));
                assert(match_at(s, sep, j + 1));
            }
        }
        lemma_split_at_first_match(t, sep, at - 1);
        lemma_split_nonempty(t.skip(at - 1 + sep.len()), sep);
        assert(t.take(at - 1) =~= s.subrange(1, at));
        assert(t.skip(at - 1 + sep.len()) =~= s.skip(at + sep.len()));
        let rest = split_segments(t, sep);
        assert(rest[0] == s.subrange(1, at));
        assert(seq![s[0]] + rest[0] =~= s.take(at));
        assert(rest.skip(1) =~= split_segments(s.skip(at + sep.len()), sep));
    }
}

/// Occurrences of the separator shift with the text: an occurrence in
/// `s.skip(d)` at `j` is one in `s` at `d + j`.
pub proof fn lemma_match_shift(s: Seq<char>, sep: Seq<char>, d: int, j: int)
    requires
        0 <= d <= s.len(),
        0 <= j,
    ensures
        match_at(s.skip(d), sep, j) <==> match_at(s, sep, d + j),
{
    if j + sep.len() <= s.len() - d {
        assert(s.skip(d).subrange(j, j + sep.len()) =~= s.subrange(d + j, d + j + sep.len()));
    }
}

/// When the separator occurs nowhere in `s`, the whole of `s` is the one
/// piece of the split.
pub proof fn lemma_split_no_match(s: Seq<char>, sep: Seq<char>)
    requires
        sep.len() >= 1,
        forall|j: int| 0 <= j ==> !match_at(s, sep, j),
    ensures
        split_segments(s, sep) =~= seq![s],
    decreases s.len(),
{
    if s.len() == 0 {
        assert(split_segments(s, sep) =~= seq![Seq::<char>::empty()]);
        assert(s =~= Seq::<char>::empty());
    } else {
        assert(!(s.len() >= sep.len() && s.take(sep.len() as int) == sep)) by {
            if s.len() >= sep.len() && s.take(sep.len() as int) == sep {
                assert(s.subrange(0, sep.len() as int) =~= s.take(sep.len() as int));
                assert(match_at(s, sep, 0));
            }
        }
        let t = s.skip(1);
        assert forall|j: int| 0 <= j implies !match_at(t, sep, j) by {
            if match_at(t, sep, j) {
                assert(s.subrange(j + 1, j + 1 + sep.len()) =~= t.subrange(j, j + sep.len()));
                assert(match_at(s, sep, j + 1));
            }
        }
        lemma_split_no_match(t, sep);
        assert(seq![s[0]] + t =~= s);
    }
}

/// True when the whole separator stands in `path` at character position `at`.
fn sep_matches_at(path: &str, n: usize, sep: &str, m: usize, at: usize) -> (b: bool)
    requires
        n == path@.len(),
        m == sep@.len(),
        at + m <= n,
    ensures
        b == match_at(path@, sep@, at as int),
{
    let mut j: usize = 0;
    while j < m
        invariant
            0 <= j <= m,
            at + m <= n,
            n == path@.len(),
            m == sep@.len(),
            forall|k: int| 0 <= k < j ==> path@[at + k] == sep@[k],
        decreases m - j,
    {
        if path.get_char(at + j) != sep.get_char(j) {
            proof {
                if match_at(path@, sep@, at as int) {
                    assert(path@.subrange(at as int, at + m)[j as int] == path@[at + j]);
                }
            }
            return false;
        }
        j += 1;
    }
    proof {
        assert(path@.subrange(at as int, at + m) =~= sep@);
    }
    true
}

/// Split a path string into its segments at each occurrence of the
/// separator. The empty path has no segments; otherwise occurrences are
/// found left to right and do not overlap.
pub fn tokenize(path: &str, sep: &str) -> (segs: Vec<String>)
    requires
        sep@.len() >= 1,
    ensures
        seg_views(segs@) == spec_segments(path@, sep@),
{
    let n = path.unicode_len();
    let m = sep.unicode_len();
    let mut segs: Vec<String> = Vec::new();
    if n == 0 {
        proof {
            assert(seg_views(segs@) =~= spec_segments(path@, sep@));
        }
        return segs;
    }
    let mut start: usize = 0;
    let mut i: usize = 0;
    proof {
        assert(path@.skip(0) =~= path@);
    }
    while n - i >= m
        invariant
            m == sep@.len(),
            n == path@.len(),
            1 <= m,
            1 <= n,
            start <= i <= n,
            forall|j: int| start <= j < i ==> !match_at(path@, sep@, j),
            seg_views(segs@) + split_segments(path@.skip(start as int), sep@) =~= split_segments(
                path@,
                sep@,
            ),
        decreases n - i,
    {
        if sep_matches_at(path, n, sep, m, i) {
            let piece = path.substring_char(start, i);
            let ghost old_segs = segs@;
            segs.push(String::from_str(piece));
            proof {
                let s = path@;
                let tail = s.skip(start as int);
                assert(match_at(tail, sep@, i - start)) by {
                    lemma_match_shift(s, sep@, start as int, i - start);
                }
                assert forall|j: int| 0 <= j < i - start implies !match_at(tail, sep@, j) by {
                    lemma_match_shift(s, sep@, start as int, j);
                }
                lemma_split_at_first_match(tail, sep@, i - start);
                assert(tail.take(i - start) =~= s.subrange(start as int, i as int));
                assert(tail.skip(i - start + m) =~= s.skip(i + m));
                assert(piece@ == s.subrange(start as int, i as int));
                assert(seg_views(segs@) =~= seg_views(old_segs).push(piece@));
                assert(seg_views(segs@) + split_segments(s.skip(i + m), sep@) =~= seg_views(
                    old_segs,
                ) + split_segments(tail, sep@));
            }
            start = i + m;
            i = start;
            proof {
                assert forall|j: int| start <= j < i implies !match_at(path@, sep@, j) by {}
            }
        } else {
            i += 1;
        }
    }
    let ghost old_segs = segs@;
    let piece = path.substring_char(start, n);
    segs.push(String::from_str(piece));
    proof {
        let s = path@;
        let tail = s.skip(start as int);
        assert forall|j: int| 0 <= j implies !match_at(tail, sep@, j) by {
            if j + m <= tail.len() {
                lemma_match_shift(s, sep@, start as int, j);
                if start + j < i {
                } else {
                    assert(start + j + m > n);
                }
            }
        }
        lemma_split_no_match(tail, sep@);
        assert(piece@ == tail);
        assert(seg_views(segs@) =~= seg_views(old_segs).push(piece@));
        assert(seg_views(segs@) =~= split_segments(s, sep@));
    }
    segs
}

/// A decimal digit.
pub open spec fn is_digit(c: char) -> bool {
    '0' as u32 <= c as u32 && c as u32 <= '9' as u32
}

/// The value of one decimal digit.
pub open spec fn digit_val(c: char) -> int {
    c as u32 - '0' as u32
}

/// Every character of `s` is a decimal digit.
pub open spec fn all_digits(s: Seq<char>) -> bool {
    forall|i: int| 0 <= i < s.len() ==> is_digit(#[trigger] s[i])
}

/// The number the decimal digit string `s` denotes.
pub open spec fn digits_val(s: Seq<char>) -> int
    decreases s.len(),
{
    if s.len() == 0 {
        0
    } else {
        digits_val(s.drop_last()) * 10 + digit_val(s.last())
    }
}

/// A valid array index: one or more decimal digits, nothing else, whose
/// value fits the machine's index type.
pub open spec fn is_index(s: Seq<char>) -> bool {
    &&& s.len() >= 1
    &&& all_digits(s)
    &&& digits_val(s) <= usize::MAX as int
}

/// The index a valid index segment denotes.
pub open spec fn index_val(s: Seq<char>) -> int {
    digits_val(s)
}

/// A digit string denotes a non-negative number.
pub proof fn lemma_digits_val_nonneg(s: Seq<char>)
    requires
        all_digits(s),
    ensures
        digits_val(s) >= 0,
    decreases s.len(),
{
    if s.len() > 0 {
        assert(all_digits(s.drop_last())) by {
            assert(forall|i: int|
                0 <= i < s.len() - 1 ==> s.drop_last()[i] == #[trigger] s[i]);
        }
        lemma_digits_val_nonneg(s.drop_last());
    }
}

/// A digit string denotes at least as much as any of its prefixes.
pub proof fn lemma_digits_val_prefix(s: Seq<char>, k: int)
    requires
        all_digits(s),
        0 <= k <= s.len(),
    ensures
        digits_val(s.take(k)) <= digits_val(s),
    decreases s.len() - k,
{
    if k < s.len() {
        lemma_digits_val_prefix(s, k + 1);
        assert(s.take(k + 1).drop_last() =~= s.take(k));
        assert(s.take(k + 1).last() == s[k]);
        assert(all_digits(s.take(k))) by {
            assert(forall|i: int| 0 <= i < k ==> s.take(k)[i] == #[trigger] s[i]);
        }
        lemma_digits_val_nonneg(s.take(k));
        assert(digits_val(s.take(k + 1)) == digits_val(s.take(k)) * 10 + digit_val(s[k]));
        assert(digit_val(s[k]) >= 0);
    } else {
        assert(s.take(k) =~= s);
    }
}

/// Read a segment as an array index: one or more decimal digits whose value
/// fits `usize`. Anything else is not an index.
pub fn parse_index(seg: &str) -> (r: Option<usize>)
    ensures
        r is Some <==> is_index(seg@),
        r is Some ==> r.unwrap() as int == index_val(seg@),
{
    let n = seg.unicode_len();
    if n == 0 {
        return None;
    }
    let mut acc: usize = 0;
    let mut i: usize = 0;
    while i < n
        invariant
            n == seg@.len(),
            0 <= i <= n,
            all_digits(seg@.take(i as int)),
            acc as int == digits_val(seg@.take(i as int)),
        decreases n - i,
    {
        let c = seg.get_char(i);
        let cu = c as u32;
        if cu < '0' as u32 || cu > '9' as u32 {
            proof {
                assert(!is_digit(seg@[i as int]));
            }
            return None;
        }
        let d = (cu - '0' as u32) as usize;
        proof {
            assert(all_digits(seg@.take(i + 1))) by {
                assert(forall|j: int|
                    0 <= j < i ==> seg@.take(i + 1)[j] == #[trigger] seg@.take(i as int)[j]);
                assert(seg@.take(i + 1)[i as int] == seg@[i as int]);
            }
            assert(seg@.take(i + 1).drop_last() =~= seg@.take(i as int));
            assert(digits_val(seg@.take(i + 1)) == acc * 10 + d);
        }
        if acc > (usize::MAX - d) / 10 {
            proof {
                assert(acc * 10 + d > usize::MAX) by {
                    let q = (usize::MAX - d) as int / 10;
                    assert(acc as int >= q + 1);
                    assert(q * 10 + 9 >= usize::MAX - d) by (nonlinear_arith)
                        requires
                            q == (usize::MAX - d) as int / 10,
                            0 <= d,
                            d <= usize::MAX,
                    ;
                    assert(acc as int * 10 >= (q + 1) * 10) by (nonlinear_arith)
                        requires
                            acc as int >= q + 1,
                    ;
                }
                if all_digits(seg@) {
                    lemma_digits_val_prefix(seg@, i + 1);
                    assert(digits_val(seg@) > usize::MAX as int);
                }
            }
            return None;
        }
        acc = acc * 10 + d;
        i += 1;
    }
    proof {
        assert(seg@.take(n as int) =~= seg@);
    }
    Some(acc)
}

} // verus!
