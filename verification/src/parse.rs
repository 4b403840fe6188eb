//! The collapsed-stack input format: lines of `frame;frame;... COUNT`, split
//! on the line's last space. Spec functions give the exact meaning of the
//! text; the exec helpers are proved to follow them.
use vstd::prelude::*;

verus! {

// ---------------------------------------------------------------------------
// Characters and numbers
// ---------------------------------------------------------------------------

pub open spec fn char_is_digit(c: char) -> bool {
    ('0' as u32) <= (c as u32) <= ('9' as u32)
}

pub open spec fn digit_of(c: char) -> int {
    (c as u32) - ('0' as u32)
}

pub open spec fn all_digits(s: Seq<char>) -> bool {
    forall|i: int| 0 <= i < s.len() ==> char_is_digit(#[trigger] s[i])
}

/// Numeric value of a digit string, most significant digit first.
pub open spec fn digits_value(s: Seq<char>) -> int
    decreases s.len(),
{
    if s.len() == 0 {
        0
    } else {
        digits_value(s.drop_last()) * 10 + digit_of(s.last())
    }
}

pub proof fn lemma_digits_value_nonneg(s: Seq<char>)
    requires
        all_digits(s),
    ensures
        digits_value(s) >= 0,
    decreases s.len(),
{
    if s.len() > 0 {
        assert(all_digits(s.drop_last())) by {
            assert(forall|i: int| 0 <= i < s.len() - 1 ==> s.drop_last()[i] == s[i]);
        }
        lemma_digits_value_nonneg(s.drop_last());
    }
}

/// The digit part of a count token: a leading `+` sign is allowed, as the
/// standard unsigned parser accepts one.
pub open spec fn count_token_digits(s: Seq<char>) -> Seq<char> {
    if s.len() > 0 && s[0] == '+' {
        s.drop_first()
    } else {
        s
    }
}

/// Whether `s` parses as a `u64` count.
pub open spec fn is_count_token(s: Seq<char>) -> bool {
    let d = count_token_digits(s);
    &&& d.len() > 0
    &&& all_digits(d)
    &&& digits_value(d) <= u64::MAX
}

pub open spec fn count_token_value(s: Seq<char>) -> int {
    digits_value(count_token_digits(s))
}

// ---------------------------------------------------------------------------
// Finding separators
// ---------------------------------------------------------------------------

/// Index of the first occurrence of `c` in `s`, or `s.len()` if none.
pub open spec fn first_occur(s: Seq<char>, c: char) -> int
    decreases s.len(),
{
    if s.len() == 0 {
        0
    } else if s[0] == c {
        0
    } else {
        1 + first_occur(s.drop_first(), c)
    }
}

pub proof fn lemma_first_occur_bounds(s: Seq<char>, c: char)
    ensures
        0 <= first_occur(s, c) <= s.len(),
        forall|j: int| 0 <= j < first_occur(s, c) ==> s[j] != c,
        first_occur(s, c) < s.len() ==> s[first_occur(s, c)] == c,
    decreases s.len(),
{
    if s.len() > 0 && s[0] != c {
        lemma_first_occur_bounds(s.drop_first(), c);
        let f = first_occur(s, c);
        assert forall|j: int| 0 <= j < f implies s[j] != c by {
            if j > 0 {
                assert(s.drop_first()[j - 1] == s[j]);
            }
        }
        if f < s.len() {
            assert(s.drop_first()[f - 1] == s[f]);
        }
    }
}

pub proof fn lemma_first_occur_at(s: Seq<char>, c: char, k: int)
    requires
        0 <= k <= s.len(),
        forall|j: int| 0 <= j < k ==> s[j] != c,
        k < s.len() ==> s[k] == c,
    ensures
        first_occur(s, c) == k,
    decreases s.len(),
{
    if s.len() > 0 && s[0] != c {
        assert forall|j: int| 0 <= j < k - 1 implies s.drop_first()[j] != c by {
            assert(s.drop_first()[j] == s[j + 1]);
        }
        if k - 1 < s.len() - 1 {
            assert(s.drop_first()[k - 1] == s[k]);
        }
        lemma_first_occur_at(s.drop_first(), c, k - 1);
    }
}

/// Index of the last space in `s`, or `-1` if there is none.
pub open spec fn last_space(s: Seq<char>) -> int
    decreases s.len(),
{
    if s.len() == 0 {
        -1
    } else if s.last() == ' ' {
        s.len() - 1
    } else {
        last_space(s.drop_last())
    }
}

pub proof fn lemma_last_space_at(s: Seq<char>, k: int)
    requires
        -1 <= k < s.len(),
        k >= 0 ==> s[k] == ' ',
        forall|j: int| k < j < s.len() ==> s[j] != ' ',
    ensures
        last_space(s) == k,
    decreases s.len(),
{
    if s.len() > 0 && s.last() != ' ' {
        assert(k < s.len() - 1);
        assert forall|j: int| k < j < s.len() - 1 implies s.drop_last()[j] != ' ' by {
            assert(s.drop_last()[j] == s[j]);
        }
        if k >= 0 {
            assert(s.drop_last()[k] == s[k]);
        }
        lemma_last_space_at(s.drop_last(), k);
    }
}

// ---------------------------------------------------------------------------
// Lines and frames
// ---------------------------------------------------------------------------

/// The newline-terminated lines of `s`; characters after the last newline
/// are not a line.
pub open spec fn line_list(s: Seq<char>) -> Seq<Seq<char>>
    decreases s.len(),
{
    if s.len() == 0 {
        Seq::empty()
    } else {
        let k = first_occur(s, '\n');
        if 0 <= k < s.len() {
            seq![s.subrange(0, k)] + line_list(s.subrange(k + 1, s.len() as int))
        } else {
            Seq::empty()
        }
    }
}

/// The semicolon-separated segments of `s`; always at least one, segments
/// may be empty.
pub open spec fn frame_list(s: Seq<char>) -> Seq<Seq<char>>
    decreases s.len(),
{
    let k = first_occur(s, ';');
    if 0 <= k < s.len() {
        seq![s.subrange(0, k)] + frame_list(s.subrange(k + 1, s.len() as int))
    } else {
        seq![s]
    }
}

pub proof fn lemma_frame_list_basic(s: Seq<char>)
    ensures
        frame_list(s).len() >= 1,
        forall|i: int|
            0 <= i < frame_list(s).len() ==> !(#[trigger] frame_list(s)[i]).contains(';'),
    decreases s.len(),
{
    lemma_first_occur_bounds(s, ';');
    let k = first_occur(s, ';');
    if k == s.len() {
        assert forall|i: int| 0 <= i < frame_list(s).len() implies !(
        #[trigger] frame_list(s)[i]).contains(';') by {
            if frame_list(s)[i].contains(';') {
                let j = choose|j: int| 0 <= j < s.len() && s[j] == ';';
            }
        }
    } else {
        let head = s.subrange(0, k);
        let rest = s.subrange(k + 1, s.len() as int);
        lemma_frame_list_basic(rest);
        assert forall|i: int| 0 <= i < frame_list(s).len() implies !(
        #[trigger] frame_list(s)[i]).contains(';') by {
            if i == 0 {
                if head.contains(';') {
                    let j = choose|j: int| 0 <= j < head.len() && head[j] == ';';
                    assert(s[j] == ';');
                }
            } else {
                assert(frame_list(s)[i] == frame_list(rest)[i - 1]);
            }
        }
    }
}

// ---------------------------------------------------------------------------
// One line
// ---------------------------------------------------------------------------

/// The meaning of one line: `Some((path, count))` when the line splits at
/// its last space into a non-empty path and a `u64` count and is not a
/// `#` comment; `None` when the line is skipped.
pub open spec fn parsed_line(s: Seq<char>) -> Option<(Seq<char>, u64)> {
    if s.len() > 0 && s[0] == '#' {
        None
    } else {
        let k = last_space(s);
        if k < 0 {
            None
        } else {
            let path = s.subrange(0, k);
            let tok = s.subrange(k + 1, s.len() as int);
            if path.len() == 0 || !is_count_token(tok) {
                None
            } else {
                Some((path, count_token_value(tok) as u64))
            }
        }
    }
}

pub open spec fn line_count(s: Seq<char>) -> int {
    match parsed_line(s) {
        Some(pc) => pc.1 as int,
        None => 0,
    }
}

/// Sum of the counts of all accepted lines.
pub open spec fn sum_line_counts(lines: Seq<Seq<char>>) -> int
    decreases lines.len(),
{
    if lines.len() == 0 {
        0
    } else {
        sum_line_counts(lines.drop_last()) + line_count(lines.last())
    }
}

pub proof fn lemma_sum_line_counts_nonneg(lines: Seq<Seq<char>>)
    ensures
        sum_line_counts(lines) >= 0,
    decreases lines.len(),
{
    if lines.len() > 0 {
        lemma_sum_line_counts_nonneg(lines.drop_last());
    }
}

pub proof fn lemma_sum_line_counts_step(lines: Seq<Seq<char>>, k: int)
    requires
        0 <= k < lines.len(),
    ensures
        sum_line_counts(lines.subrange(0, k + 1)) == sum_line_counts(lines.subrange(0, k))
            + line_count(lines[k]),
{
    let a = lines.subrange(0, k + 1);
    assert(a.drop_last() =~= lines.subrange(0, k));
    assert(a.last() == lines[k]);
}

// ---------------------------------------------------------------------------
// The whole input
// ---------------------------------------------------------------------------

/// The input with a newline appended when it does not end in one.
pub open spec fn normalized_input(s: Seq<char>) -> Seq<char> {
    if s.len() > 0 && s.last() == '\n' {
        s
    } else {
        s + seq!['\n']
    }
}

/// Sum of the accepted counts over the whole input text.
pub open spec fn accepted_total(content: Seq<char>) -> int {
    sum_line_counts(line_list(normalized_input(content)))
}

// ---------------------------------------------------------------------------
// Exec helpers
// ---------------------------------------------------------------------------

/// Copies a string's characters into a vector for random access.
pub fn to_char_vec(s: &str) -> (v: Vec<char>)
    ensures
        v@ == s@,
{
    let n = s.unicode_len();
    let mut v: Vec<char> = Vec::new();
    let mut i: usize = 0;
    while i < n
        invariant
            n == s@.len(),
            i <= n,
            v@ =~= s@.subrange(0, i as int),
        decreases n - i,
    {
        v.push(s.get_char(i));
        i += 1;
    }
    proof {
        assert(v@ =~= s@);
    }
    v
}

/// Splits the text into its newline-terminated lines.
pub fn split_lines(s: &str) -> (lines: Vec<String>)
    ensures
        lines@.map_values(|l: String| l@) == line_list(s@),
{
    let v = to_char_vec(s);
    let n = v.len();
    let mut lines: Vec<String> = Vec::new();
    let mut pos: usize = 0;
    proof {
        assert(s@.subrange(0, n as int) =~= s@);
        assert(lines@.map_values(|l: String| l@) =~= Seq::<Seq<char>>::empty());
        assert(Seq::<Seq<char>>::empty() + line_list(s@) =~= line_list(s@));
    }
    loop
        invariant_except_break
            n == s@.len(),
            v@ == s@,
            pos <= n,
            line_list(s@) == lines@.map_values(|l: String| l@) + line_list(
                s@.subrange(pos as int, n as int),
            ),
        ensures
            lines@.map_values(|l: String| l@) == line_list(s@),
        decreases n - pos,
    {
        let ghost rest = s@.subrange(pos as int, n as int);
        // Find the next newline at or after `pos`.
        let mut j: usize = pos;
        while j < n && v[j] != '\n'
            invariant
                n == s@.len(),
                v@ == s@,
                pos <= j <= n,
                forall|m: int| pos <= m < j ==> s@[m] != '\n',
            decreases n - j,
        {
            j += 1;
        }
        proof {
            assert(forall|m: int| 0 <= m < j - pos ==> rest[m] == s@[pos + m]);
            lemma_first_occur_at(rest, '\n', j - pos);
        }
        if j >= n {
            proof {
                if rest.len() != 0 {
                    assert(line_list(rest) =~= Seq::<Seq<char>>::empty());
                }
                assert(lines@.map_values(|l: String| l@) + line_list(rest)
                    =~= lines@.map_values(|l: String| l@));
            }
            break;
        }
        let piece = s.substring_char(pos, j);
        let owned = String::from_str(piece);
        let ghost before = lines@;
        lines.push(owned);
        proof {
            let k = (j - pos) as int;
            assert(line_list(rest) == seq![rest.subrange(0, k)] + line_list(
                rest.subrange(k + 1, rest.len() as int),
            ));
            assert(rest.subrange(0, k) =~= s@.subrange(pos as int, j as int));
            assert(rest.subrange(k + 1, rest.len() as int) =~= s@.subrange(
                j + 1,
                n as int,
            ));
            assert(lines@.map_values(|l: String| l@) =~= before.map_values(|l: String| l@)
                + seq![piece@]);
            assert(line_list(s@) == lines@.map_values(|l: String| l@) + line_list(
                s@.subrange(j + 1, n as int),
            ));
        }
        pos = j + 1;
    }
    lines
}

/// Parses one line into its path and count, or reports that the line is
/// skipped.
pub fn parse_line(line: &str) -> (r: Option<(String, u64)>)
    ensures
        match parsed_line(line@) {
            Some(pc) => {
                &&& r is Some
                &&& r->Some_0.0@ == pc.0
                &&& r->Some_0.1 == pc.1
            },
            None => r is None,
        },
{
    let v = to_char_vec(line);
    let n = v.len();
    if n > 0 && v[0] == '#' {
        return None;
    }
    // Find the last space.
    let mut i: usize = n;
    while i > 0 && v[i - 1] != ' '
        invariant
            n == line@.len(),
            v@ == line@,
            i <= n,
            forall|m: int| i <= m < n ==> line@[m] != ' ',
        decreases i,
    {
        i -= 1;
    }
    if i == 0 {
        proof {
            lemma_last_space_at(line@, -1);
        }
        return None;
    }
    let k = i - 1;
    proof {
        lemma_last_space_at(line@, k as int);
    }
    if k == 0 {
        // Empty path.
        return None;
    }
    let ghost tok = line@.subrange(k + 1, n as int);
    // Parse the count token.
    let mut t: usize = k + 1;
    if t < n && v[t] == '+' {
        t += 1;
    }
    let ghost digits = line@.subrange(t as int, n as int);
    proof {
        assert(count_token_digits(tok) =~= digits);
    }
    if t >= n {
        // No digits.
        return None;
    }
    let mut value: u64 = 0;
    let mut p: usize = t;
    while p < n
        invariant
            n == line@.len(),
            v@ == line@,
            t <= p <= n,
            digits == line@.subrange(t as int, n as int),
            digits == count_token_digits(tok),
            !is_count_token(tok) ==> parsed_line(line@) is None,
            all_digits(line@.subrange(t as int, p as int)),
            value == digits_value(line@.subrange(t as int, p as int)),
        decreases n - p,
    {
        let c = v[p];
        let ghost pre = line@.subrange(t as int, p as int);
        let cu = c as u32;
        if cu < ('0' as u32) || cu > ('9' as u32) {
            proof {
                assert(digits[p - t] == c);
                assert(!char_is_digit(c));
                assert(!all_digits(digits));
            }
            return None;
        }
        let d: u64 = (cu - ('0' as u32)) as u64;
        proof {
            assert(char_is_digit(c));
            assert(line@.subrange(t as int, p + 1).drop_last() =~= pre);
            assert(line@.subrange(t as int, p + 1).last() == c);
            assert(all_digits(line@.subrange(t as int, p + 1))) by {
                assert(forall|m: int|
                    0 <= m < pre.len() ==> line@.subrange(t as int, p + 1)[m] == pre[m]);
            }
            lemma_digits_value_nonneg(pre);
        }
        if value > (u64::MAX - d) / 10 {
            proof {
                let full = line@.subrange(t as int, p + 1);
                assert(digits_value(full) == value * 10 + d);
                vstd::arithmetic::div_mod::lemma_fundamental_div_mod(
                    (u64::MAX - d) as int,
                    10,
                );
                assert(digits_value(full) > u64::MAX);
                if all_digits(digits) {
                    assert(full =~= digits.subrange(0, p + 1 - t));
                    lemma_digits_prefix_grow(digits, (p + 1 - t) as int);
                    assert(digits_value(digits) > u64::MAX);
                }
                assert(!is_count_token(tok));
            }
            return None;
        }
        value = value * 10 + d;
        p += 1;
    }
    proof {
        assert(line@.subrange(t as int, n as int) =~= digits);
        assert(is_count_token(tok));
        assert(count_token_value(tok) == value);
    }
    let path = String::from_str(line.substring_char(0, k));
    proof {
        assert(path@ == line@.subrange(0, k as int));
        assert(parsed_line(line@) matches Some(pc) && pc.0 == path@ && pc.1 == value);
    }
    Some((path, value))
}

/// A digit string's value only grows when more digits follow.
pub proof fn lemma_digits_prefix_grow(s: Seq<char>, k: int)
    requires
        0 <= k <= s.len(),
        all_digits(s),
    ensures
        digits_value(s) >= digits_value(s.subrange(0, k)),
    decreases s.len() - k,
{
    if k < s.len() {
        let a = s.subrange(0, k);
        let b = s.subrange(0, k + 1);
        assert(b.drop_last() =~= a);
        assert(char_is_digit(s[k]));
        assert(all_digits(a)) by {
            assert(forall|m: int| 0 <= m < k ==> a[m] == s[m]);
        }
        lemma_digits_value_nonneg(a);
        assert(digits_value(b) == digits_value(a) * 10 + digit_of(s[k]));
        lemma_digits_prefix_grow(s, k + 1);
    } else {
        assert(s.subrange(0, k) =~= s);
    }
}

/// Splits a path into its semicolon-separated frames.
pub fn split_frames(path: &str) -> (frames: Vec<String>)
    ensures
        frames@.map_values(|f: String| f@) == frame_list(path@),
        frames@.len() >= 1,
{
    let v = to_char_vec(path);
    let n = v.len();
    let mut frames: Vec<String> = Vec::new();
    let mut pos: usize = 0;
    proof {
        assert(path@.subrange(0, n as int) =~= path@);
        assert(frames@.map_values(|f: String| f@) =~= Seq::<Seq<char>>::empty());
        assert(Seq::<Seq<char>>::empty() + frame_list(path@) =~= frame_list(path@));
    }
    loop
        invariant_except_break
            n == path@.len(),
            v@ == path@,
            pos <= n,
            frame_list(path@) == frames@.map_values(|f: String| f@) + frame_list(
                path@.subrange(pos as int, n as int),
            ),
        ensures
            frames@.map_values(|f: String| f@) == frame_list(path@),
            frames@.len() >= 1,
        decreases n - pos,
    {
        let ghost rest = path@.subrange(pos as int, n as int);
        let mut j: usize = pos;
        while j < n && v[j] != ';'
            invariant
                n == path@.len(),
                v@ == path@,
                pos <= j <= n,
                forall|m: int| pos <= m < j ==> path@[m] != ';',
            decreases n - j,
        {
            j += 1;
        }
        proof {
            assert(forall|m: int| 0 <= m < j - pos ==> rest[m] == path@[pos + m]);
            lemma_first_occur_at(rest, ';', j - pos);
        }
        let piece = String::from_str(path.substring_char(pos, j));
        let ghost before = frames@;
        frames.push(piece);
        if j >= n {
            proof {
                assert(rest.subrange(0, rest.len() as int) =~= rest);
                assert(frame_list(rest) == seq![rest]);
                assert(rest =~= path@.subrange(pos as int, j as int));
                assert(frames@.map_values(|f: String| f@) =~= before.map_values(
                    |f: String| f@,
                ) + seq![rest]);
                assert(frames@.map_values(|f: String| f@) =~= frame_list(path@));
            }
            break;
        }
        proof {
            let k = (j - pos) as int;
            assert(frame_list(rest) == seq![rest.subrange(0, k)] + frame_list(
                rest.subrange(k + 1, rest.len() as int),
            ));
            assert(rest.subrange(0, k) =~= path@.subrange(pos as int, j as int));
            assert(rest.subrange(k + 1, rest.len() as int) =~= path@.subrange(
                j + 1,
                n as int,
            ));
            assert(frames@.map_values(|f: String| f@) =~= before.map_values(|f: String| f@)
                + seq![path@.subrange(pos as int, j as int)]);
            assert(frame_list(path@) == frames@.map_values(|f: String| f@) + frame_list(
                path@.subrange(j + 1, n as int),
            ));
        }
        pos = j + 1;
    }
    frames
}

} // verus!
