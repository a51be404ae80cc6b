use vstd::prelude::*;
use vstd::string::*;

verus! {

/// `q` occurs in `s` as a run of consecutive characters (`str::contains`).
pub open spec fn has_substring(s: Seq<char>, q: Seq<char>) -> bool {
    exists|k: int| 0 <= k && k + q.len() <= s.len() && #[trigger] s.subrange(k, k + q.len()) == q
}

/// What `str::to_lowercase` returns for a text; Unicode case mapping,
/// which the standard library defines and this crate only names.
pub uninterp spec fn lowercase(s: Seq<char>) -> Seq<char>;

/// Calls `str::to_lowercase`; the result is the lowercase form that the
/// standard library computes, a function of the text alone.
#[verifier::external_body]
pub(crate) fn to_lowercase(s: &str) -> (r: String)
    ensures
        r@ == lowercase(s@),
{
    s.to_lowercase()
}

/// The characters of `s`, one by one.
pub fn chars_of(s: &str) -> (r: Vec<char>)
    ensures
        r@ == s@,
{
    let mut r: Vec<char> = Vec::new();
    let ghost sv = s@;
    for c in it: s.chars()
        invariant
            sv == s@,
            it.seq() == sv,
            r@ == sv.take(it.index() as int),
    {
        proof {
            assert(sv.take(it.index() + 1) =~= r@.push(c));
        }
        r.push(c);
    }
    proof {
        assert(r@.len() == sv.len());
        assert(r@ =~= sv);
    }
    r
}

/// Calls `String::push`, which appends `c` to the end of `s`.
#[verifier::external_body]
pub(crate) fn push_char(s: &mut String, c: char)
    ensures
        final(s)@ == old(s)@.push(c),
{
    s.push(c)
}

/// The text made of `chars`.
pub fn text_of(chars: &Vec<char>) -> (r: String)
    ensures
        r@ == chars@,
{
    let mut out = String::new();
    let mut i: usize = 0;
    while i < chars.len()
        invariant
            i <= chars.len(),
            out@ == chars@.take(i as int),
        decreases chars.len() - i,
    {
        push_char(&mut out, chars[i]);
        proof {
            assert(chars@.take(i + 1) =~= chars@.take(i as int).push(chars@[i as int]));
        }
        i = i + 1;
    }
    proof {
        assert(chars@.take(chars.len() as int) =~= chars@);
    }
    out
}

/// Whether `q` occurs in `s` as a run of consecutive characters.
pub fn contains_chars(s: &Vec<char>, q: &Vec<char>) -> (r: bool)
    ensures
        r == has_substring(s@, q@),
{
    if q.len() > s.len() {
        return false;
    }
    let last = s.len() - q.len();
    let mut k: usize = 0;
    loop
        invariant
            last == s.len() - q.len(),
            q.len() <= s.len(),
            k <= last,
            forall|j: int| 0 <= j < k ==> #[trigger] s@.subrange(j, j + q@.len()) != q@,
        decreases last - k,
    {
        let mut i: usize = 0;
        let mut same = true;
        while i < q.len()
            invariant
                k <= last,
                last == s.len() - q.len(),
                i <= q.len(),
                same ==> forall|j: int| 0 <= j < i ==> s@[k + j] == q@[j],
                !same ==> s@.subrange(k as int, k + q@.len()) != q@,
            decreases q.len() - i,
        {
            if same && s[k + i] != q[i] {
                proof {
                    assert(s@.subrange(k as int, k + q@.len())[i as int] == s@[k + i]);
                }
                same = false;
            }
            i = i + 1;
        }
        if same {
            proof {
                assert(s@.subrange(k as int, k + q@.len()) =~= q@);
            }
            return true;
        }
        if k == last {
            proof {
                assert forall|j: int| 0 <= j && j + q@.len() <= s@.len() implies #[trigger] s@.subrange(
                    j,
                    j + q@.len(),
                ) != q@ by {
                    assert(j <= k);
                }
            }
            return false;
        }
        k = k + 1;
    }
}

/// Whether `q` occurs in `s` (`str::contains` with a text pattern).
pub fn str_contains(s: &str, q: &str) -> (r: bool)
    ensures
        r == has_substring(s@, q@),
{
    let sc = chars_of(s);
    let qc = chars_of(q);
    contains_chars(&sc, &qc)
}

/// The character of the decimal digit `d`.
pub open spec fn digit_char(d: int) -> char {
    (48 + d) as char
}

/// The decimal digits of `n`, most significant first, without leading zeros.
pub open spec fn decimal(n: nat) -> Seq<char>
    decreases n,
{
    if n < 10 {
        seq![digit_char(n as int)]
    } else {
        decimal(n / 10).push(digit_char((n % 10) as int))
    }
}

/// The text of one decimal digit.
pub fn digit_text(d: u64) -> (r: &'static str)
    requires
        d < 10,
    ensures
        r@ == seq![digit_char(d as int)],
{
    proof {
        reveal_strlit("0");
        reveal_strlit("1");
        reveal_strlit("2");
        reveal_strlit("3");
        reveal_strlit("4");
        reveal_strlit("5");
        reveal_strlit("6");
        reveal_strlit("7");
        reveal_strlit("8");
        reveal_strlit("9");
    }
    let r = match d {
        0 => "0",
        1 => "1",
        2 => "2",
        3 => "3",
        4 => "4",
        5 => "5",
        6 => "6",
        7 => "7",
        8 => "8",
        _ => "9",
    };
    assert(r@ =~= seq![digit_char(d as int)]);
    r
}

/// Appends the decimal digits of `n` to `out`.
pub fn push_decimal(out: &mut String, n: u64)
    ensures
        final(out)@ == old(out)@ + decimal(n as nat),
    decreases n,
{
    if n < 10 {
        out.append(digit_text(n));
    } else {
        push_decimal(out, n / 10);
        out.append(digit_text(n % 10));
        proof {
            assert(old(out)@ + decimal((n / 10) as nat) + seq![digit_char((n % 10) as int)]
                =~= old(out)@ + decimal(n as nat));
        }
    }
}

/// The decimal text of `n` (what `n.to_string()` gives).
pub fn decimal_text(n: u64) -> (r: String)
    ensures
        r@ == decimal(n as nat),
{
    let mut out = String::new();
    push_decimal(&mut out, n);
    proof {
        assert(out@ =~= decimal(n as nat));
    }
    out
}


/// `c` has the Unicode White_Space property (what `char::is_whitespace`
/// tests).
pub open spec fn is_white_space(c: char) -> bool {
    let u = c as u32;
    ||| (9 <= u <= 13)
    ||| u == 32
    ||| u == 0x85
    ||| u == 0xa0
    ||| u == 0x1680
    ||| (0x2000 <= u <= 0x200a)
    ||| u == 0x2028
    ||| u == 0x2029
    ||| u == 0x202f
    ||| u == 0x205f
    ||| u == 0x3000
}

/// Whether `c` has the Unicode White_Space property.
pub fn white_space(c: char) -> (r: bool)
    ensures
        r == is_white_space(c),
{
    let u = c as u32;
    (9 <= u && u <= 13) || u == 32 || u == 0x85 || u == 0xa0 || u == 0x1680 || (0x2000 <= u && u
        <= 0x200a) || u == 0x2028 || u == 0x2029 || u == 0x202f || u == 0x205f || u == 0x3000
}

/// Index of the first character of `s[k..]` that is not white space, or
/// `s.len()` when there is none.
pub open spec fn first_non_space(s: Seq<char>, k: int) -> int
    decreases s.len() - k,
{
    if k < 0 || k >= s.len() {
        s.len() as int
    } else if !is_white_space(s[k]) {
        k
    } else {
        first_non_space(s, k + 1)
    }
}

/// The end of `s[..k]` once trailing white space is cut off.
pub open spec fn end_non_space(s: Seq<char>, k: int) -> int
    decreases k,
{
    if k <= 0 || k > s.len() {
        0
    } else if !is_white_space(s[k - 1]) {
        k
    } else {
        end_non_space(s, k - 1)
    }
}

/// `s` without leading and trailing white space (`str::trim`).
pub open spec fn trimmed(s: Seq<char>) -> Seq<char> {
    let a = first_non_space(s, 0);
    if a >= s.len() {
        Seq::empty()
    } else {
        s.subrange(a, end_non_space(s, s.len() as int))
    }
}

proof fn lemma_first_non_space(s: Seq<char>, k: int)
    requires
        0 <= k <= s.len(),
    ensures
        k <= first_non_space(s, k) <= s.len(),
        first_non_space(s, k) < s.len() ==> !is_white_space(s[first_non_space(s, k)]),
    decreases s.len() - k,
{
    if k < s.len() && is_white_space(s[k]) {
        lemma_first_non_space(s, k + 1);
    }
}

proof fn lemma_end_non_space(s: Seq<char>, k: int, a: int)
    requires
        0 <= a < k <= s.len(),
        !is_white_space(s[a]),
    ensures
        a < end_non_space(s, k) <= k,
    decreases k,
{
    if is_white_space(s[k - 1]) {
        lemma_end_non_space(s, k - 1, a);
    }
}

/// `s` without leading and trailing white space.
pub fn trim_text(s: &str) -> (r: String)
    ensures
        r@ == trimmed(s@),
{
    let n = s.unicode_len();
    let mut a: usize = 0;
    while a < n && white_space(s.get_char(a))
        invariant
            n == s@.len(),
            a <= n,
            first_non_space(s@, 0) == first_non_space(s@, a as int),
        decreases n - a,
    {
        a = a + 1;
    }
    if a >= n {
        proof {
            assert(trimmed(s@) =~= Seq::<char>::empty());
        }
        return String::new();
    }
    proof {
        assert(first_non_space(s@, a as int) == a);
        lemma_end_non_space(s@, n as int, a as int);
    }
    let mut b: usize = n;
    while b > a && white_space(s.get_char(b - 1))
        invariant
            n == s@.len(),
            a < n,
            a < b <= n,
            !is_white_space(s@[a as int]),
            end_non_space(s@, n as int) == end_non_space(s@, b as int),
        decreases b,
    {
        b = b - 1;
    }
    proof {
        assert(end_non_space(s@, b as int) == b);
    }
    String::from_str(s.substring_char(a, b))
}

/// What `format!("{:?}", s)` gives for a text: the text in double quotes
/// with the standard library's escapes.
pub uninterp spec fn debug_text(s: Seq<char>) -> Seq<char>;

/// Calls `format!("{:?}", s)`: the quoted, escaped form of the text, a
/// function of the text alone.
#[verifier::external_body]
pub(crate) fn debug_quoted(s: &str) -> (r: String)
    ensures
        r@ == debug_text(s@),
{
    format!("{:?}", s)
}

/// Whether `c` occurs in `s`.
pub fn has_char(s: &str, c: char) -> (r: bool)
    ensures
        r == s@.contains(c),
{
    let n = s.unicode_len();
    let mut i: usize = 0;
    while i < n
        invariant
            n == s@.len(),
            i <= n,
            forall|j: int| 0 <= j < i ==> s@[j] != c,
        decreases n - i,
    {
        if s.get_char(i) == c {
            proof {
                assert(s@[i as int] == c);
            }
            return true;
        }
        i = i + 1;
    }
    false
}

} // verus!
