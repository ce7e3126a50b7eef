use vstd::prelude::*;
use vstd::string::StrSliceExecFns;
use vstd::string::StringExecFns;

verus! {

/// The characters of `s` with every backslash replaced by a forward slash.
pub open spec fn normalized_path_chars(s: Seq<char>) -> Seq<char> {
    s.map_values(|c: char| if c == '\\' { '/' } else { c })
}

/// The characters of `s` with every CRLF pair and every lone CR replaced by
/// a single LF.
pub open spec fn normalized_contents_chars(s: Seq<char>) -> Seq<char>
    decreases s.len(),
{
    if s.len() == 0 {
        Seq::empty()
    } else if s[0] == '\r' {
        if s.len() >= 2 && s[1] == '\n' {
            seq!['\n'] + normalized_contents_chars(s.skip(2))
        } else {
            seq!['\n'] + normalized_contents_chars(s.skip(1))
        }
    } else {
        seq![s[0]] + normalized_contents_chars(s.skip(1))
    }
}

/// A stretch of characters free of CR passes through content normalization
/// unchanged: normalizing `s` is appending the first `k` characters of `s`
/// to the normalization of the rest.
proof fn lemma_normalized_contents_clean_prefix(s: Seq<char>, k: int)
    requires
        0 <= k <= s.len(),
        forall|j: int| 0 <= j < k ==> s[j] != '\r',
    ensures
        normalized_contents_chars(s) == s.take(k) + normalized_contents_chars(s.skip(k)),
    decreases k,
{
    if k == 0 {
        assert(s.skip(0) =~= s);
        assert(s.take(0) + normalized_contents_chars(s) =~= normalized_contents_chars(s));
    } else {
        assert(s.len() > 0 && s[0] != '\r');
        lemma_normalized_contents_clean_prefix(s.skip(1), k - 1);
        assert(s.skip(1).skip(k - 1) =~= s.skip(k));
        assert(seq![s[0]] + (s.skip(1).take(k - 1) + normalized_contents_chars(s.skip(k)))
            =~= s.take(k) + normalized_contents_chars(s.skip(k)));
    }
}

/// Normalizes a path between operating systems by replacing any
/// backslashes with forward slashes.
pub fn to_normalized_path(path: &str) -> (r: String)
    ensures
        r@ == normalized_path_chars(path@),
{
    let n: usize = path.unicode_len();
    let mut out: String = String::new();
    let mut run_start: usize = 0;
    let mut i: usize = 0;
    proof {
        assert(out@ =~= normalized_path_chars(path@.take(0)));
    }
    while i < n
        invariant
            n == path@.len(),
            run_start <= i <= n,
            forall|j: int| run_start <= j < i ==> path@[j] != '\\',
            out@ == normalized_path_chars(path@.take(run_start as int)),
        decreases n - i,
    {
        let c = path.get_char(i);
        if c == '\\' {
            out.append(path.substring_char(run_start, i));
            out.append("/");
            proof {
                reveal_strlit("/");
                assert(out@ =~= normalized_path_chars(path@.take(i + 1)));
            }
            i = i + 1;
            run_start = i;
        } else {
            i = i + 1;
        }
    }
    out.append(path.substring_char(run_start, n));
    proof {
        assert(out@ =~= normalized_path_chars(path@));
    }
    out
}

/// Normalizes file contents between operating systems by replacing any
/// carriage returns, alone or paired with a following line feed, with a
/// single line feed.
pub fn to_normalized_file_contents(contents: &str) -> (r: String)
    ensures
        r@ == normalized_contents_chars(contents@),
{
    let n: usize = contents.unicode_len();
    let mut out: String = String::new();
    let mut run_start: usize = 0;
    let mut i: usize = 0;
    proof {
        assert(contents@.skip(0) =~= contents@);
        assert(out@ + normalized_contents_chars(contents@) =~= normalized_contents_chars(
            contents@,
        ));
    }
    while i < n
        invariant
            n == contents@.len(),
            run_start <= i <= n,
            forall|j: int| run_start <= j < i ==> contents@[j] != '\r',
            out@ + normalized_contents_chars(contents@.skip(run_start as int))
                == normalized_contents_chars(contents@),
        decreases n - i,
    {
        let c = contents.get_char(i);
        if c == '\r' {
            out.append(contents.substring_char(run_start, i));
            out.append("\n");
            proof {
                reveal_strlit("\n");
                let tail = contents@.skip(run_start as int);
                lemma_normalized_contents_clean_prefix(tail, i - run_start);
                assert(tail.take(i - run_start) =~= contents@.subrange(
                    run_start as int,
                    i as int,
                ));
                assert(tail.skip(i - run_start) =~= contents@.skip(i as int));
            }
            if i + 1 < n && contents.get_char(i + 1) == '\n' {
                proof {
                    let rest = contents@.skip(i as int);
                    assert(rest[0] == '\r' && rest.len() >= 2 && rest[1] == '\n');
                    assert(rest.skip(2) =~= contents@.skip(i + 2));
                    assert(out@ + (seq!['\n'] + normalized_contents_chars(contents@.skip(i + 2)))
                        =~= (out@ + seq!['\n']) + normalized_contents_chars(contents@.skip(i + 2)));
                }
                i = i + 2;
            } else {
                proof {
                    let rest = contents@.skip(i as int);
                    assert(rest[0] == '\r');
                    assert(!(rest.len() >= 2 && rest[1] == '\n')) by {
                        if rest.len() >= 2 {
                            assert(rest[1] == contents@[i + 1]);
                        }
                    }
                    assert(rest.skip(1) =~= contents@.skip(i + 1));
                    assert(out@ + (seq!['\n'] + normalized_contents_chars(contents@.skip(i + 1)))
                        =~= (out@ + seq!['\n']) + normalized_contents_chars(contents@.skip(i + 1)));
                }
                i = i + 1;
            }
            run_start = i;
        } else {
            i = i + 1;
        }
    }
    out.append(contents.substring_char(run_start, n));
    proof {
        let tail = contents@.skip(run_start as int);
        lemma_normalized_contents_clean_prefix(tail, tail.len() as int);
        assert(tail.take(tail.len() as int) =~= tail);
        assert(tail.skip(tail.len() as int) =~= Seq::<char>::empty());
        assert(normalized_contents_chars(Seq::<char>::empty()) =~= Seq::<char>::empty());
        assert(tail =~= contents@.subrange(run_start as int, n as int));
        assert(out@ =~= normalized_contents_chars(contents@));
    }
    out
}

/// The decimal digit character for `d`.
pub open spec fn decimal_digit(d: nat) -> char
    recommends
        d < 10,
{
    if d == 0 {
        '0'
    } else if d == 1 {
        '1'
    } else if d == 2 {
        '2'
    } else if d == 3 {
        '3'
    } else if d == 4 {
        '4'
    } else if d == 5 {
        '5'
    } else if d == 6 {
        '6'
    } else if d == 7 {
        '7'
    } else if d == 8 {
        '8'
    } else {
        '9'
    }
}

/// The decimal representation of `n`, most significant digit first, with no
/// leading zero except for `n == 0` itself.
pub open spec fn decimal_chars(n: nat) -> Seq<char>
    decreases n,
{
    if n < 10 {
        seq![decimal_digit(n)]
    } else {
        decimal_chars(n / 10) + seq![decimal_digit(n % 10)]
    }
}

fn digit_str(d: u64) -> (r: &'static str)
    requires
        d < 10,
    ensures
        r@ == seq![decimal_digit(d as nat)],
{
    if d == 0 {
        proof {
            reveal_strlit("0");
            assert("0"@ =~= seq![decimal_digit(0)]);
        }
        "0"
    } else if d == 1 {
        proof {
            reveal_strlit("1");
            assert("1"@ =~= seq![decimal_digit(1)]);
        }
        "1"
    } else if d == 2 {
        proof {
            reveal_strlit("2");
            assert("2"@ =~= seq![decimal_digit(2)]);
        }
        "2"
    } else if d == 3 {
        proof {
            reveal_strlit("3");
            assert("3"@ =~= seq![decimal_digit(3)]);
        }
        "3"
    } else if d == 4 {
        proof {
            reveal_strlit("4");
            assert("4"@ =~= seq![decimal_digit(4)]);
        }
        "4"
    } else if d == 5 {
        proof {
            reveal_strlit("5");
            assert("5"@ =~= seq![decimal_digit(5)]);
        }
        "5"
    } else if d == 6 {
        proof {
            reveal_strlit("6");
            assert("6"@ =~= seq![decimal_digit(6)]);
        }
        "6"
    } else if d == 7 {
        proof {
            reveal_strlit("7");
            assert("7"@ =~= seq![decimal_digit(7)]);
        }
        "7"
    } else if d == 8 {
        proof {
            reveal_strlit("8");
            assert("8"@ =~= seq![decimal_digit(8)]);
        }
        "8"
    } else {
        proof {
            reveal_strlit("9");
            assert("9"@ =~= seq![decimal_digit(9)]);
        }
        "9"
    }
}

/// Renders `x` in decimal, as `u64::to_string` would.
pub fn u64_to_decimal(x: u64) -> (r: String)
    ensures
        r@ == decimal_chars(x as nat),
    decreases x,
{
    if x < 10 {
        String::from_str(digit_str(x))
    } else {
        let mut s = u64_to_decimal(x / 10);
        s.append(digit_str(x % 10));
        s
    }
}

/// The characters of `n` occur in `h` starting at position `i`.
pub open spec fn chars_match_at(h: Seq<char>, n: Seq<char>, i: int) -> bool {
    0 <= i && i + n.len() <= h.len() && h.subrange(i, i + n.len()) == n
}

/// The characters of `n` occur somewhere in `h`.
pub open spec fn contains_chars(h: Seq<char>, n: Seq<char>) -> bool {
    exists|i: int| chars_match_at(h, n, i)
}

fn chars_match_at_exec(h: &str, n: &str, i: usize) -> (r: bool)
    requires
        i + n@.len() <= h@.len(),
        h@.len() <= usize::MAX,
    ensures
        r == chars_match_at(h@, n@, i as int),
{
    let n_len: usize = n.unicode_len();
    let mut j: usize = 0;
    while j < n_len
        invariant
            n_len == n@.len(),
            i + n_len <= h@.len() <= usize::MAX,
            j <= n_len,
            forall|t: int| 0 <= t < j ==> h@[i + t] == n@[t],
        decreases n_len - j,
    {
        if h.get_char(i + j) != n.get_char(j) {
            proof {
                assert(h@.subrange(i as int, i + n@.len())[j as int] == h@[i + j]);
            }
            return false;
        }
        j = j + 1;
    }
    proof {
        assert(h@.subrange(i as int, i + n@.len()) =~= n@);
    }
    true
}

/// Whether the characters of `n` occur as a contiguous substring of `h`.
pub fn str_contains(h: &str, n: &str) -> (r: bool)
    ensures
        r == contains_chars(h@, n@),
{
    let h_len: usize = h.unicode_len();
    let n_len: usize = n.unicode_len();
    if n_len > h_len {
        return false;
    }
    if n_len == 0 {
        proof {
            assert(h@.subrange(0, 0) =~= n@);
            assert(chars_match_at(h@, n@, 0));
        }
        return true;
    }
    let mut i: usize = 0;
    while i <= h_len - n_len
        invariant
            h_len == h@.len(),
            n_len == n@.len(),
            0 < n_len <= h_len,
            i <= h_len - n_len + 1,
            forall|t: int| 0 <= t < i ==> !chars_match_at(h@, n@, t),
        decreases h_len - n_len + 1 - i,
    {
        if chars_match_at_exec(h, n, i) {
            proof {
                assert(chars_match_at(h@, n@, i as int));
            }
            return true;
        }
        i = i + 1;
    }
    false
}

/// The bytes of `n` occur in `h` starting at position `i`.
pub open spec fn bytes_match_at(h: Seq<u8>, n: Seq<u8>, i: int) -> bool {
    0 <= i && i + n.len() <= h.len() && h.subrange(i, i + n.len()) == n
}

/// The (start, end) spans of the successive non-overlapping occurrences of
/// `n` in `h`, scanning left to right from position `i` and resuming each
/// search where the previous occurrence ended.
pub open spec fn literal_spans_from(h: Seq<u8>, n: Seq<u8>, i: int) -> Seq<(int, int)>
    decreases h.len() - i,
    when n.len() > 0 && 0 <= i
{
    if i + n.len() > h.len() {
        Seq::empty()
    } else if h.subrange(i, i + n.len()) == n {
        seq![(i, i + n.len())] + literal_spans_from(h, n, i + n.len())
    } else {
        literal_spans_from(h, n, i + 1)
    }
}

/// The spans of all non-overlapping occurrences of `n` in `h`, leftmost
/// first.
pub open spec fn literal_spans(h: Seq<u8>, n: Seq<u8>) -> Seq<(int, int)> {
    literal_spans_from(h, n, 0)
}

/// Every span that the scan yields lies within the haystack, spans
/// exactly one occurrence of the needle, and starts no earlier than
/// where the scan began.
proof fn lemma_literal_spans_from_wf(h: Seq<u8>, n: Seq<u8>, i: int)
    requires
        n.len() > 0,
        0 <= i,
    ensures
        forall|k: int|
            0 <= k < literal_spans_from(h, n, i).len() ==> i <= (#[trigger] literal_spans_from(
                h,
                n,
                i,
            )[k]).0 && literal_spans_from(h, n, i)[k].0 + n.len() == literal_spans_from(h, n, i)[k].1
                && literal_spans_from(h, n, i)[k].1 <= h.len(),
    decreases h.len() - i,
{
    let spans = literal_spans_from(h, n, i);
    if i + n.len() > h.len() {
    } else if h.subrange(i, i + n.len()) == n {
        lemma_literal_spans_from_wf(h, n, i + n.len());
        let rest = literal_spans_from(h, n, i + n.len());
        assert forall|k: int| 0 <= k < spans.len() implies i <= (#[trigger] spans[k]).0
            && spans[k].0 + n.len() == spans[k].1 && spans[k].1 <= h.len() by {
            if k == 0 {
                assert(spans[0] == (i, i + n.len()));
            } else {
                assert(spans[k] == rest[k - 1]);
            }
        }
    } else {
        lemma_literal_spans_from_wf(h, n, i + 1);
        let rest = literal_spans_from(h, n, i + 1);
        assert forall|k: int| 0 <= k < spans.len() implies i <= (#[trigger] spans[k]).0
            && spans[k].0 + n.len() == spans[k].1 && spans[k].1 <= h.len() by {
            assert(spans[k] == rest[k]);
        }
    }
}

fn bytes_match_at_exec(h: &[u8], n: &[u8], i: usize) -> (r: bool)
    requires
        i + n@.len() <= h@.len(),
    ensures
        r == bytes_match_at(h@, n@, i as int),
{
    let h_len: usize = h.len();
    let n_len: usize = n.len();
    let mut j: usize = 0;
    while j < n_len
        invariant
            h_len == h@.len(),
            n_len == n@.len(),
            i + n_len <= h@.len(),
            j <= n_len,
            forall|t: int| 0 <= t < j ==> h@[i + t] == n@[t],
        decreases n_len - j,
    {
        if h[i + j] != n[j] {
            proof {
                assert(h@.subrange(i as int, i + n@.len())[j as int] == h@[i + j]);
            }
            return false;
        }
        j = j + 1;
    }
    proof {
        assert(h@.subrange(i as int, i + n@.len()) =~= n@);
    }
    true
}

/// Finds every non-overlapping occurrence of `n` in `h`, leftmost first.
pub fn find_literal_spans(h: &[u8], n: &[u8]) -> (r: Vec<(usize, usize)>)
    requires
        n@.len() > 0,
    ensures
        r@.len() == literal_spans(h@, n@).len(),
        forall|k: int|
            0 <= k < r@.len() ==> r@[k].0 == literal_spans(h@, n@)[k].0 && r@[k].1
                == literal_spans(h@, n@)[k].1,
        forall|k: int|
            0 <= k < literal_spans(h@, n@).len() ==> 0 <= (#[trigger] literal_spans(h@, n@)[k]).0
                && literal_spans(h@, n@)[k].0 + n@.len() == literal_spans(h@, n@)[k].1
                && literal_spans(h@, n@)[k].1 <= h@.len(),
{
    proof {
        lemma_literal_spans_from_wf(h@, n@, 0);
    }
    let h_len: usize = h.len();
    let n_len: usize = n.len();
    let mut r: Vec<(usize, usize)> = Vec::new();
    let ghost mut done: Seq<(int, int)> = Seq::empty();
    if n_len > h_len {
        return r;
    }
    let mut i: usize = 0;
    proof {
        assert(done + literal_spans_from(h@, n@, 0) =~= literal_spans_from(h@, n@, 0));
    }
    while i <= h_len - n_len
        invariant
            h_len == h@.len(),
            n_len == n@.len(),
            0 < n_len <= h_len,
            i <= h_len - n_len + n_len,
            r@.len() == done.len(),
            forall|k: int| 0 <= k < r@.len() ==> r@[k].0 == done[k].0 && r@[k].1 == done[k].1,
            done + literal_spans_from(h@, n@, i as int) == literal_spans(h@, n@),
        decreases h_len - i,
    {
        if bytes_match_at_exec(h, n, i) {
            r.push((i, i + n_len));
            proof {
                assert(literal_spans_from(h@, n@, i as int) == seq![(i as int, i + n_len)]
                    + literal_spans_from(h@, n@, i + n_len));
                assert((done + (seq![(i as int, i + n_len)] + literal_spans_from(
                    h@,
                    n@,
                    i + n_len,
                ))) =~= ((done + seq![(i as int, i + n_len)]) + literal_spans_from(
                    h@,
                    n@,
                    i + n_len,
                )));
                done = done + seq![(i as int, i + n_len)];
            }
            i = i + n_len;
        } else {
            i = i + 1;
        }
    }
    proof {
        assert(literal_spans_from(h@, n@, i as int) =~= Seq::<(int, int)>::empty());
        assert(done + Seq::<(int, int)>::empty() =~= done);
    }
    r
}

} // verus!
