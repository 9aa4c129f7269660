//! The high-score table and its text format: a fixed-size best-of table kept
//! sorted on update, decimal rendering of the two whitespace-separated
//! integer lists, and the lenient parser that reads them back.
use vstd::prelude::*;
use vstd::seq_lib::group_to_multiset_ensures;
use vstd::string::StrSliceExecFns;
use vstd::string::StringExecFns;

verus! {

broadcast use group_to_multiset_ensures;

/// The number of entries the high-score table keeps.
pub open spec fn table_size() -> int {
    5
}

/// A sequence of scores in ascending order.
pub open spec fn sorted(s: Seq<u32>) -> bool {
    forall|i: int, j: int| 0 <= i <= j < s.len() ==> s[i] <= s[j]
}

/// The decimal digit character for `d` below 10.
pub open spec fn digit_char(d: int) -> char {
    if d == 0 {
        '0'
    } else if d == 1 {
        '1'
    } else if d == 2 {
        '2'
    } else if d == 3 {
        '3'
    } else if d == 4 {
        '4'
    } else if d == 5 {
        '5'
    } else if d == 6 {
        '6'
    } else if d == 7 {
        '7'
    } else if d == 8 {
        '8'
    } else {
        '9'
    }
}

/// The usual decimal rendering of `n`: no sign, no leading zeros (except for
/// 0 itself).
pub open spec fn dec_str(n: nat) -> Seq<char>
    decreases n,
{
    if n < 10 {
        seq![digit_char(n as int)]
    } else {
        dec_str(n / 10) + seq![digit_char((n % 10) as int)]
    }
}

/// The numbers rendered in decimal and joined by single spaces.
pub open spec fn joined(s: Seq<u32>) -> Seq<char>
    decreases s.len(),
{
    if s.len() == 0 {
        Seq::empty()
    } else if s.len() == 1 {
        dec_str(s[0] as nat)
    } else {
        joined(s.drop_last()) + seq![' '] + dec_str(s.last() as nat)
    }
}

/// A one-character string slice holding the decimal digit `d`.
fn digit_str(d: u32) -> (s: &'static str)
    requires
        d < 10,
    ensures
        s@ == seq![digit_char(d as int)],
{
    proof {
        reveal_strlit("0");
        reveal_strlit("1");
        reveal_strlit("2");
        reveal_strlit("3");
        reveal_strlit("4");
        reveal_strlit("5");
        reveal_strlit("6");
        reveal_strlit("7");
        reveal_strlit("8");
        reveal_strlit("9");
    }
    if d == 0 {
        "0"
    } else if d == 1 {
        "1"
    } else if d == 2 {
        "2"
    } else if d == 3 {
        "3"
    } else if d == 4 {
        "4"
    } else if d == 5 {
        "5"
    } else if d == 6 {
        "6"
    } else if d == 7 {
        "7"
    } else if d == 8 {
        "8"
    } else {
        "9"
    }
}

/// Renders `n` in decimal.
pub fn u32_to_string(n: u32) -> (s: String)
    ensures
        s@ == dec_str(n as nat),
    decreases n,
{
    if n < 10 {
        String::from_str(digit_str(n))
    } else {
        let mut s = u32_to_string(n / 10);
        s.append(digit_str(n % 10));
        s
    }
}

/// Renders a list of numbers as the decimal values joined by single spaces.
pub fn slice_to_string(slice: &[u32]) -> (s: String)
    ensures
        s@ == joined(slice@),
{
    let mut s = String::new();
    proof {
        reveal_strlit(" ");
        assert(slice@.take(0) =~= Seq::<u32>::empty());
    }
    let mut i: usize = 0;
    while i < slice.len()
        invariant
            i <= slice@.len(),
            s@ == joined(slice@.take(i as int)),
        decreases slice@.len() - i,
    {
        if i > 0 {
            s.append(" ");
        }
        let num = u32_to_string(slice[i]);
        s.append(num.as_str());
        proof {
            assert(slice@.take(i + 1).drop_last() =~= slice@.take(i as int));
            assert(slice@.take(i + 1).last() == slice@[i as int]);
        }
        i = i + 1;
    }
    proof {
        assert(slice@.take(slice@.len() as int) =~= slice@);
    }
    s
}

/// The full contents of the high-score file: the score list on the first
/// line, the line-count list on the second, each line terminated by a
/// newline.
pub fn highscore_file_contents(highscores: &[u32], number_of_lines: &[u32]) -> (s: String)
    ensures
        s@ == joined(highscores@) + seq!['\n'] + joined(number_of_lines@) + seq!['\n'],
{
    proof {
        reveal_strlit("\n");
    }
    let mut s = slice_to_string(highscores);
    s.append("\n");
    let second = slice_to_string(number_of_lines);
    s.append(second.as_str());
    s.append("\n");
    s
}

/// Sorts the entries in ascending order; the contents are preserved.
fn sort_u32(v: &mut Vec<u32>)
    ensures
        final(v)@.to_multiset() == old(v)@.to_multiset(),
        final(v)@.len() == old(v)@.len(),
        sorted(final(v)@),
{
    let mut src: Vec<u32> = Vec::new();
    core::mem::swap(&mut src, v);
    while src.len() > 0
        invariant
            v@.to_multiset().add(src@.to_multiset()) == old(v)@.to_multiset(),
            v@.len() + src@.len() == old(v)@.len(),
            sorted(v@),
            forall|i: int, k: int|
                0 <= i < v@.len() && 0 <= k < src@.len() ==> v@[i] <= src@[k],
        decreases src@.len(),
    {
        let mut m: usize = 0;
        let mut k: usize = 1;
        while k < src.len()
            invariant
                m < k <= src@.len(),
                forall|j: int| 0 <= j < k ==> src@[m as int] <= src@[j],
            decreases src@.len() - k,
        {
            if src[k] < src[m] {
                m = k;
            }
            k = k + 1;
        }
        let ghost prev_src = src@;
        let ghost prev_out = v@;
        let x = src.remove(m);
        v.push(x);
        proof {
            assert(src@.to_multiset() =~= prev_src.to_multiset().remove(x));
            assert(v@.to_multiset() =~= prev_out.to_multiset().insert(x));
            assert(v@.to_multiset().add(src@.to_multiset()) =~= prev_out.to_multiset().add(
                prev_src.to_multiset(),
            ));
            assert forall|i: int, kk: int|
                0 <= i < v@.len() && 0 <= kk < src@.len() implies v@[i] <= src@[kk] by {
                if kk < m {
                    assert(src@[kk] == prev_src[kk]);
                } else {
                    assert(src@[kk] == prev_src[kk + 1]);
                }
            }
        }
    }
}

/// The index of the first entry smaller than `value`, or -1 when every entry
/// is at least `value`.
pub open spec fn first_slot(s: Seq<u32>, value: u32) -> int
    decreases s.len(),
{
    if s.len() == 0 {
        -1
    } else if s[0] < value {
        0
    } else {
        let r = first_slot(s.drop_first(), value);
        if r < 0 {
            -1
        } else {
            r + 1
        }
    }
}

/// `first_slot` finds exactly the first entry below `value`.
pub proof fn lemma_first_slot(s: Seq<u32>, value: u32, k: int)
    requires
        0 <= k < s.len(),
        s[k] < value,
        forall|j: int| 0 <= j < k ==> s[j] >= value,
    ensures
        first_slot(s, value) == k,
    decreases s.len(),
{
    if k > 0 {
        lemma_first_slot(s.drop_first(), value, k - 1);
    }
}

/// When no entry is below `value`, `first_slot` reports none.
pub proof fn lemma_first_slot_none(s: Seq<u32>, value: u32)
    requires
        forall|j: int| 0 <= j < s.len() ==> s[j] >= value,
    ensures
        first_slot(s, value) == -1,
    decreases s.len(),
{
    if s.len() > 0 {
        lemma_first_slot_none(s.drop_first(), value);
    }
}

/// Merges `value` into the best-of table `v`: while the table is short the
/// value is inserted; once it holds `table_size` entries the value replaces
/// the first smaller entry, if any. The table is re-sorted ascending whenever
/// it changes; the result says whether it changed.
pub fn update_vec(v: &mut Vec<u32>, value: u32) -> (r: bool)
    ensures
        old(v)@.len() < table_size() ==> {
            &&& r
            &&& final(v)@.to_multiset() == old(v)@.push(value).to_multiset()
            &&& final(v)@.len() == old(v)@.len() + 1
            &&& sorted(final(v)@)
        },
        old(v)@.len() >= table_size() ==> {
            &&& r == (first_slot(old(v)@, value) >= 0)
            &&& !r ==> *final(v) == *old(v)
            &&& r ==> {
                &&& final(v)@.to_multiset() == old(v)@.update(
                    first_slot(old(v)@, value),
                    value,
                ).to_multiset()
                &&& final(v)@.len() == old(v)@.len()
                &&& sorted(final(v)@)
            }
        },
{
    if v.len() < 5 {
        v.push(value);
        sort_u32(v);
        true
    } else {
        let mut k: usize = 0;
        while k < v.len()
            invariant
                k <= v@.len(),
                *v == *old(v),
                forall|j: int| 0 <= j < k ==> v@[j] >= value,
            decreases v@.len() - k,
        {
            let entry = v[k];
            if value > entry {
                proof {
                    lemma_first_slot(v@, value, k as int);
                }
                v[k] = value;
                sort_u32(v);
                return true;
            }
            k = k + 1;
        }
        proof {
            lemma_first_slot_none(v@, value);
        }
        false
    }
}

/// The decimal value of a digit character, or -1 for any other character.
pub open spec fn digit_of(c: char) -> int {
    if c == '0' {
        0
    } else if c == '1' {
        1
    } else if c == '2' {
        2
    } else if c == '3' {
        3
    } else if c == '4' {
        4
    } else if c == '5' {
        5
    } else if c == '6' {
        6
    } else if c == '7' {
        7
    } else if c == '8' {
        8
    } else if c == '9' {
        9
    } else {
        -1
    }
}

/// Every character of `t` is a decimal digit.
pub open spec fn all_digits(t: Seq<char>) -> bool {
    forall|i: int| 0 <= i < t.len() ==> digit_of(t[i]) >= 0
}

/// The number a digit string denotes.
pub open spec fn dec_value(t: Seq<char>) -> int
    decreases t.len(),
{
    if t.len() == 0 {
        0
    } else {
        dec_value(t.drop_last()) * 10 + digit_of(t.last())
    }
}

/// A token with one optional leading plus sign stripped.
pub open spec fn token_body(t: Seq<char>) -> Seq<char> {
    if t.len() > 0 && t[0] == '+' {
        t.subrange(1, t.len() as int)
    } else {
        t
    }
}

/// What a token denotes: a number when, after an optional leading plus sign,
/// it is one or more decimal digits whose value fits in 32 bits; nothing
/// otherwise.
pub open spec fn parse_token(t: Seq<char>) -> Option<u32> {
    let b = token_body(t);
    if b.len() > 0 && all_digits(b) && dec_value(b) <= u32::MAX {
        Some(dec_value(b) as u32)
    } else {
        None
    }
}

/// The segments of `s` between space characters: one token per gap, so
/// consecutive spaces yield empty tokens and the empty string yields one
/// empty token.
pub open spec fn split_sp(s: Seq<char>) -> Seq<Seq<char>>
    decreases s.len(),
{
    if s.len() == 0 {
        seq![Seq::<char>::empty()]
    } else if s[0] == ' ' {
        seq![Seq::<char>::empty()] + split_sp(s.drop_first())
    } else {
        let rest = split_sp(s.drop_first());
        seq![seq![s[0]] + rest[0]] + rest.drop_first()
    }
}

/// No character of `t` is a space.
pub open spec fn space_free(t: Seq<char>) -> bool {
    forall|i: int| 0 <= i < t.len() ==> t[i] != ' '
}

/// Splitting always yields at least one token.
pub proof fn lemma_split_sp_len(s: Seq<char>)
    ensures
        split_sp(s).len() >= 1,
    decreases s.len(),
{
    if s.len() > 0 {
        lemma_split_sp_len(s.drop_first());
    }
}

/// A space-free prefix extends the first token of the rest of the split.
pub proof fn lemma_split_sp_concat(a: Seq<char>, b: Seq<char>)
    requires
        space_free(a),
    ensures
        split_sp(a + b) == seq![a + split_sp(b)[0]] + split_sp(b).drop_first(),
    decreases a.len(),
{
    lemma_split_sp_len(b);
    if a.len() == 0 {
        assert(a + b =~= b);
        assert(a + split_sp(b)[0] =~= split_sp(b)[0]);
        assert(split_sp(b) =~= seq![split_sp(b)[0]] + split_sp(b).drop_first());
    } else {
        assert((a + b)[0] == a[0]);
        assert((a + b).drop_first() =~= a.drop_first() + b);
        lemma_split_sp_concat(a.drop_first(), b);
        let rest = split_sp(a.drop_first() + b);
        assert(rest[0] == a.drop_first() + split_sp(b)[0]);
        assert(seq![(a + b)[0]] + rest[0] =~= a + split_sp(b)[0]);
        assert(rest.drop_first() =~= split_sp(b).drop_first());
        assert(split_sp(a + b) =~= seq![a + split_sp(b)[0]] + split_sp(b).drop_first());
    }
}

/// A space after a space-free token closes that token.
pub proof fn lemma_split_sp_token(a: Seq<char>, b: Seq<char>)
    requires
        space_free(a),
    ensures
        split_sp(a + seq![' '] + b) == seq![a] + split_sp(b),
{
    lemma_split_sp_len(b);
    let sb = seq![' '] + b;
    assert(sb[0] == ' ');
    assert(sb.drop_first() =~= b);
    assert(split_sp(sb) == seq![Seq::<char>::empty()] + split_sp(b));
    lemma_split_sp_concat(a, sb);
    assert(a + seq![' '] + b =~= a + sb);
    assert(split_sp(sb)[0] =~= Seq::<char>::empty());
    assert(a + split_sp(sb)[0] =~= a);
    assert(split_sp(sb).drop_first() =~= split_sp(b));
    assert(split_sp(a + seq![' '] + b) =~= seq![a] + split_sp(b));
}

/// A space-free string is one single token.
pub proof fn lemma_split_sp_single(a: Seq<char>)
    ensures
        space_free(a) ==> split_sp(a) == seq![a],
{
    if space_free(a) {
        let e = Seq::<char>::empty();
        lemma_split_sp_concat(a, e);
        assert(a + e =~= a);
        assert(split_sp(e) == seq![e]);
        assert(a + split_sp(e)[0] =~= a);
        assert(split_sp(e).drop_first() =~= Seq::<Seq<char>>::empty());
        assert(split_sp(a) =~= seq![a]);
    }
}

/// The numbers the tokens denote, in order; tokens that denote nothing are
/// dropped.
pub open spec fn parsed_values(ts: Seq<Seq<char>>) -> Seq<u32>
    decreases ts.len(),
{
    if ts.len() == 0 {
        Seq::empty()
    } else {
        let rest = parsed_values(ts.drop_first());
        match parse_token(ts[0]) {
            Some(v) => seq![v] + rest,
            None => rest,
        }
    }
}

/// The numbers a line denotes: its space-separated tokens parsed leniently.
pub open spec fn line_values(s: Seq<char>) -> Seq<u32> {
    parsed_values(split_sp(s))
}

/// A digit string whose proper prefix already exceeds the 32-bit range
/// exceeds it as a whole.
pub proof fn lemma_dec_value_extend_exceeds(t: Seq<char>, m: int)
    requires
        all_digits(t),
        0 <= m <= t.len(),
        dec_value(t.take(m)) > u32::MAX,
    ensures
        dec_value(t) > u32::MAX,
    decreases t.len() - m,
{
    if m == t.len() {
        assert(t.take(m) =~= t);
    } else {
        assert(t.take(m + 1).drop_last() =~= t.take(m));
        assert(t.take(m + 1).last() == t[m]);
        assert(dec_value(t.take(m)) * 10 >= dec_value(t.take(m)));
        assert(digit_of(t[m]) >= 0);
        lemma_dec_value_extend_exceeds(t, m + 1);
    }
}

/// The decimal value of a digit character, or nothing for any other
/// character.
fn digit_value(c: char) -> (d: Option<u32>)
    ensures
        d matches Some(v) ==> digit_of(c) == v && v < 10,
        d is None ==> digit_of(c) < 0,
{
    match c {
        '0' => Some(0),
        '1' => Some(1),
        '2' => Some(2),
        '3' => Some(3),
        '4' => Some(4),
        '5' => Some(5),
        '6' => Some(6),
        '7' => Some(7),
        '8' => Some(8),
        '9' => Some(9),
        _ => None,
    }
}

/// Parses one token as `str::parse::<u32>` would: an optional leading plus
/// sign, then decimal digits; anything else, an empty body, or a value over
/// the 32-bit range denotes nothing.
fn parse_token_str(t: &str) -> (r: Option<u32>)
    ensures
        r == parse_token(t@),
{
    let n = t.unicode_len();
    let mut j: usize = 0;
    if n > 0 && t.get_char(0) == '+' {
        j = 1;
    }
    let ghost body = token_body(t@);
    proof {
        assert(body =~= t@.subrange(j as int, n as int));
    }
    if j >= n {
        proof {
            assert(body.len() == 0);
        }
        return None;
    }
    let mut acc: u32 = 0;
    let mut k: usize = j;
    proof {
        assert(body.take(0) =~= Seq::<char>::empty());
    }
    while k < n
        invariant
            j <= k <= n,
            n == t@.len(),
            body == t@.subrange(j as int, n as int),
            all_digits(body.take(k - j)),
            acc == dec_value(body.take(k - j)),
        decreases n - k,
    {
        let c = t.get_char(k);
        proof {
            assert(c == body[k - j]);
        }
        match digit_value(c) {
            None => {
                proof {
                    assert(!all_digits(body));
                }
                return None;
            },
            Some(d) => {
                let ghost m = k - j;
                proof {
                    assert(body.take(m + 1).drop_last() =~= body.take(m as int));
                    assert(body.take(m + 1).last() == body[m as int]);
                }
                let wide: u64 = acc as u64 * 10 + d as u64;
                if wide > u32::MAX as u64 {
                    proof {
                        assert(dec_value(body.take(m + 1)) > u32::MAX);
                        if all_digits(body) {
                            lemma_dec_value_extend_exceeds(body, m + 1);
                        }
                    }
                    return None;
                }
                acc = wide as u32;
            },
        }
        k = k + 1;
    }
    proof {
        assert(body.take(n - j) =~= body);
    }
    Some(acc)
}

/// Parses a line of space-separated tokens into the numbers it denotes,
/// dropping tokens that denote nothing.
pub fn line_to_slice(line: &str) -> (r: Vec<u32>)
    ensures
        r@ == line_values(line@),
{
    let n = line.unicode_len();
    let mut res: Vec<u32> = Vec::new();
    let mut start: usize = 0;
    let mut i: usize = 0;
    proof {
        assert(line@.skip(0) =~= line@);
        assert(res@ + parsed_values(split_sp(line@)) =~= parsed_values(split_sp(line@)));
    }
    while i < n
        invariant
            start <= i <= n,
            n == line@.len(),
            space_free(line@.subrange(start as int, i as int)),
            line_values(line@) == res@ + parsed_values(split_sp(line@.skip(start as int))),
        decreases n - i,
    {
        let c = line.get_char(i);
        if c == ' ' {
            let tok = line.substring_char(start, i);
            let pv = parse_token_str(tok);
            let ghost a = line@.subrange(start as int, i as int);
            let ghost b = line@.skip(i + 1);
            let ghost ts = seq![a] + split_sp(b);
            let ghost prev_res = res@;
            proof {
                assert(line@.skip(start as int) =~= a + seq![' '] + b);
                lemma_split_sp_token(a, b);
                assert(split_sp(line@.skip(start as int)) == ts);
                assert(ts[0] == a);
                assert(ts.drop_first() =~= split_sp(b));
            }
            match pv {
                Some(v) => {
                    res.push(v);
                    proof {
                        assert(parsed_values(ts) == seq![v] + parsed_values(split_sp(b)));
                        assert(res@ =~= prev_res + seq![v]);
                        assert(res@ + parsed_values(split_sp(b)) =~= prev_res + (seq![v]
                            + parsed_values(split_sp(b))));
                    }
                },
                None => {
                    proof {
                        assert(parsed_values(ts) == parsed_values(split_sp(b)));
                    }
                },
            }
            start = i + 1;
            proof {
                assert(space_free(line@.subrange(start as int, start as int)));
            }
        } else {
            proof {
                assert(line@.subrange(start as int, i + 1) =~= line@.subrange(
                    start as int,
                    i as int,
                ).push(c));
            }
        }
        i = i + 1;
    }
    let tok = line.substring_char(start, n);
    let pv = parse_token_str(tok);
    let ghost a = line@.subrange(start as int, n as int);
    let ghost prev_res = res@;
    proof {
        assert(line@.skip(start as int) =~= a);
        lemma_split_sp_single(a);
        assert(split_sp(line@.skip(start as int)) == seq![a]);
        assert((seq![a])[0] == a);
        assert((seq![a]).drop_first() =~= Seq::<Seq<char>>::empty());
        assert(parsed_values(Seq::<Seq<char>>::empty()) == Seq::<u32>::empty());
    }
    match pv {
        Some(v) => {
            res.push(v);
            proof {
                assert(parsed_values(seq![a]) == seq![v] + Seq::<u32>::empty());
                assert(res@ =~= prev_res + (seq![v] + Seq::<u32>::empty()));
            }
        },
        None => {
            proof {
                assert(parsed_values(seq![a]) == Seq::<u32>::empty());
                assert(prev_res + Seq::<u32>::empty() =~= prev_res);
            }
        },
    }
    res
}

/// The index of the first newline at or after `from`, or the length when
/// there is none.
fn find_newline(content: &str, from: usize) -> (j: usize)
    requires
        from <= content@.len(),
    ensures
        from <= j <= content@.len(),
        forall|k: int| from <= k < j ==> content@[k] != '\n',
        j < content@.len() ==> content@[j as int] == '\n',
{
    let n = content.unicode_len();
    let mut j: usize = from;
    while j < n
        invariant
            from <= j <= n,
            n == content@.len(),
            forall|k: int| from <= k < j ==> content@[k] != '\n',
        decreases n - j,
    {
        if content.get_char(j) == '\n' {
            return j;
        }
        j = j + 1;
    }
    j
}

/// `i` is the first newline of `s`, and `j` delimits the line after it: the
/// next newline, or the end when there is none.
pub open spec fn split_lines_at(s: Seq<char>, i: int, j: int) -> bool {
    &&& 0 <= i < s.len()
    &&& s[i] == '\n'
    &&& (forall|k: int| 0 <= k < i ==> s[k] != '\n')
    &&& i < j <= s.len()
    &&& (j < s.len() ==> s[j] == '\n')
    &&& (forall|k: int| i < k < j ==> s[k] != '\n')
}

/// Splits the saved contents into its first two lines and parses each as a
/// number list: the scores, then the line counts. The first line runs up to
/// the first newline, the second from there up to the next newline or the
/// end; anything beyond is ignored. Contents without a newline are treated
/// as no prior data.
pub fn parse_highscores_and_lines(content: &str) -> (r: Option<(Vec<u32>, Vec<u32>)>)
    ensures
        (r is Some) == (exists|i: int| 0 <= i < content@.len() && content@[i] == '\n'),
        r matches Some((h, l)) ==> exists|i: int, j: int|
            {
                &&& #[trigger] split_lines_at(content@, i, j)
                &&& h@ == line_values(content@.subrange(0, i))
                &&& l@ == line_values(content@.subrange(i + 1, j))
            },
{
    let n = content.unicode_len();
    let i = find_newline(content, 0);
    if i >= n {
        return None;
    }
    let j = find_newline(content, i + 1);
    let first = content.substring_char(0, i);
    let second = content.substring_char(i + 1, j);
    let h = line_to_slice(first);
    let l = line_to_slice(second);
    proof {
        assert(split_lines_at(content@, i as int, j as int));
    }
    Some((h, l))
}

/// A decimal rendering is nonempty and consists of digits only.
pub proof fn lemma_dec_str_digits(n: nat)
    ensures
        dec_str(n).len() >= 1,
        all_digits(dec_str(n)),
    decreases n,
{
    if n < 10 {
        assert forall|i: int| 0 <= i < dec_str(n).len() implies digit_of(dec_str(n)[i]) >= 0 by {
            assert(dec_str(n)[0] == digit_char(n as int));
        }
    } else {
        lemma_dec_str_digits(n / 10);
        assert forall|i: int| 0 <= i < dec_str(n).len() implies digit_of(dec_str(n)[i]) >= 0 by {
            if i < dec_str(n / 10).len() {
                assert(dec_str(n)[i] == dec_str(n / 10)[i]);
            } else {
                assert(dec_str(n)[i] == digit_char((n % 10) as int));
            }
        }
    }
}

/// A decimal rendering denotes the number it was rendered from.
pub proof fn lemma_dec_value_dec_str(n: nat)
    ensures
        dec_value(dec_str(n)) == n,
    decreases n,
{
    if n < 10 {
        let t = dec_str(n);
        assert(dec_value(Seq::<char>::empty()) == 0);
        assert(t.drop_last() =~= Seq::<char>::empty());
        assert(t.last() == digit_char(n as int));
        assert(digit_of(digit_char(n as int)) == n);
        assert(dec_value(t) == dec_value(t.drop_last()) * 10 + digit_of(t.last()));
    } else {
        lemma_dec_value_dec_str(n / 10);
        let t = dec_str(n);
        assert(t.drop_last() =~= dec_str(n / 10));
        assert(t.last() == digit_char((n % 10) as int));
        assert(digit_of(digit_char((n % 10) as int)) == n % 10);
        assert(dec_value(t) == dec_value(t.drop_last()) * 10 + digit_of(t.last()));
        vstd::arithmetic::div_mod::lemma_fundamental_div_mod(n as int, 10);
        assert(n == 10 * ((n as int) / 10) + (n as int) % 10);
    }
}

/// A decimal rendering parses back to the number it was rendered from.
pub proof fn lemma_parse_token_dec_str(v: u32)
    ensures
        parse_token(dec_str(v as nat)) == Some(v),
{
    lemma_dec_str_digits(v as nat);
    lemma_dec_value_dec_str(v as nat);
    let t = dec_str(v as nat);
    assert(digit_of(t[0]) >= 0);
    assert(t[0] != '+');
    assert(token_body(t) == t);
}

/// Digit characters are neither spaces nor newlines.
pub proof fn lemma_digits_plain(t: Seq<char>)
    requires
        all_digits(t),
    ensures
        space_free(t),
        forall|k: int| 0 <= k < t.len() ==> t[k] != '\n',
{
    assert forall|k: int| 0 <= k < t.len() implies t[k] != ' ' && t[k] != '\n' by {
        assert(digit_of(t[k]) >= 0);
    }
}

/// A joined number list holds only digits and spaces, so no newline.
pub proof fn lemma_joined_chars(v: Seq<u32>)
    ensures
        forall|k: int| 0 <= k < joined(v).len() ==> joined(v)[k] != '\n',
    decreases v.len(),
{
    if v.len() == 1 {
        lemma_dec_str_digits(v[0] as nat);
        lemma_digits_plain(dec_str(v[0] as nat));
    } else if v.len() > 1 {
        lemma_joined_chars(v.drop_last());
        lemma_dec_str_digits(v.last() as nat);
        lemma_digits_plain(dec_str(v.last() as nat));
        let a = joined(v.drop_last());
        let d = dec_str(v.last() as nat);
        assert forall|k: int| 0 <= k < joined(v).len() implies joined(v)[k] != '\n' by {
            if k < a.len() {
                assert(joined(v)[k] == a[k]);
            } else if k == a.len() {
                assert(joined(v)[k] == ' ');
            } else {
                assert(joined(v)[k] == d[k - a.len() - 1]);
            }
        }
    }
}

/// A joined list of two or more numbers starts with the first number's
/// rendering, a space, and the joined rest.
pub proof fn lemma_joined_front(v: Seq<u32>)
    requires
        v.len() >= 2,
    ensures
        joined(v) == dec_str(v[0] as nat) + seq![' '] + joined(v.drop_first()),
    decreases v.len(),
{
    if v.len() == 2 {
        assert(v.drop_last() =~= seq![v[0]]);
        assert(v.drop_first() =~= seq![v[1]]);
        assert(joined(seq![v[0]]) == dec_str(v[0] as nat));
        assert(joined(seq![v[1]]) == dec_str(v[1] as nat));
        assert(v.last() == v[1]);
        assert(joined(v) =~= dec_str(v[0] as nat) + seq![' '] + joined(v.drop_first()));
    } else {
        let w = v.drop_last();
        lemma_joined_front(w);
        assert(v.drop_first().drop_last() =~= w.drop_first());
        assert(v.drop_first().last() == v.last());
        assert(w[0] == v[0]);
        assert(joined(v.drop_first()) == joined(v.drop_first().drop_last()) + seq![' ']
            + dec_str(v.drop_first().last() as nat));
        assert(joined(v) =~= dec_str(v[0] as nat) + seq![' '] + joined(v.drop_first()));
    }
}

/// Rendering a number list and parsing the line back returns the same list:
/// the lenient parser inverts `slice_to_string` on every input.
pub proof fn lemma_line_values_joined(v: Seq<u32>)
    ensures
        line_values(joined(v)) == v,
    decreases v.len(),
{
    if v.len() == 0 {
        let e = Seq::<char>::empty();
        assert(joined(v) == e);
        assert(split_sp(e) == seq![e]);
        assert(token_body(e) == e);
        assert(parse_token(e) is None);
        let ts = seq![e];
        assert(ts[0] == e);
        assert(ts.drop_first() =~= Seq::<Seq<char>>::empty());
        assert(parsed_values(Seq::<Seq<char>>::empty()) == Seq::<u32>::empty());
        assert(parsed_values(ts) == Seq::<u32>::empty());
        assert(line_values(joined(v)) =~= v);
    } else if v.len() == 1 {
        let t = dec_str(v[0] as nat);
        lemma_dec_str_digits(v[0] as nat);
        lemma_digits_plain(t);
        lemma_split_sp_single(t);
        lemma_parse_token_dec_str(v[0]);
        let ts = seq![t];
        assert(ts[0] == t);
        assert(ts.drop_first() =~= Seq::<Seq<char>>::empty());
        assert(parsed_values(Seq::<Seq<char>>::empty()) == Seq::<u32>::empty());
        assert(parsed_values(ts) == seq![v[0]] + Seq::<u32>::empty());
        assert(seq![v[0]] + Seq::<u32>::empty() =~= seq![v[0]]);
        assert(line_values(joined(v)) =~= v);
    } else {
        lemma_joined_front(v);
        let t = dec_str(v[0] as nat);
        let b = joined(v.drop_first());
        lemma_dec_str_digits(v[0] as nat);
        lemma_digits_plain(t);
        lemma_parse_token_dec_str(v[0]);
        lemma_split_sp_token(t, b);
        lemma_line_values_joined(v.drop_first());
        let ts = seq![t] + split_sp(b);
        assert(split_sp(joined(v)) == ts);
        assert(ts[0] == t);
        assert(ts.drop_first() =~= split_sp(b));
        assert(parsed_values(ts) == seq![v[0]] + parsed_values(split_sp(b)));
        assert(line_values(joined(v)) =~= seq![v[0]] + v.drop_first());
        assert(seq![v[0]] + v.drop_first() =~= v);
    }
}

/// Saving and loading round-trip: in the contents that
/// `highscore_file_contents` renders from two lists, the first newline and
/// the one that follows it delimit exactly the two rendered lines, those
/// delimiters are the only ones `split_lines_at` admits, and each line
/// parses back to its list. With `parse_highscores_and_lines`' contract this
/// pins the parse of saved contents to `Some` of the saved lists.
pub proof fn lemma_saved_contents_round_trip(hs: Seq<u32>, ln: Seq<u32>)
    ensures
        ({
            let s = joined(hs) + seq!['\n'] + joined(ln) + seq!['\n'];
            let i = joined(hs).len() as int;
            let j = s.len() - 1;
            &&& split_lines_at(s, i, j)
            &&& (forall|i2: int, j2: int|
                #[trigger] split_lines_at(s, i2, j2) ==> i2 == i && j2 == j)
            &&& line_values(s.subrange(0, i)) == hs
            &&& line_values(s.subrange(i + 1, j)) == ln
        }),
{
    let s = joined(hs) + seq!['\n'] + joined(ln) + seq!['\n'];
    let i = joined(hs).len() as int;
    let j = s.len() - 1;
    lemma_joined_chars(hs);
    lemma_joined_chars(ln);
    lemma_line_values_joined(hs);
    lemma_line_values_joined(ln);
    assert(s.subrange(0, i) =~= joined(hs));
    assert(s.subrange(i + 1, j) =~= joined(ln));
    assert(s[i] == '\n');
    assert(s[j] == '\n');
    assert forall|k: int| 0 <= k < i implies s[k] != '\n' by {
        assert(s[k] == joined(hs)[k]);
    }
    assert forall|k: int| i < k < j implies s[k] != '\n' by {
        assert(s[k] == joined(ln)[k - i - 1]);
    }
    assert(split_lines_at(s, i, j));
    assert forall|i2: int, j2: int| #[trigger] split_lines_at(s, i2, j2) implies i2 == i && j2
        == j by {
        if i2 < i {
            assert(s[i2] != '\n');
        }
        if i2 > i {
            assert(s[i] == '\n');
        }
        if j2 < j {
            assert(s[j2] == '\n');
        }
        if j2 > j {
            assert(s[j] == '\n');
        }
    }
}

} // verus!
