//! The puzzle file format: whitespace-separated decimal numbers, the side
//! `n` first and then the `n * n` tiles, row-major, `0` for the blank.
//!
//! The text is read as UTF-8 bytes.  Whitespace is what Unicode calls white
//! space; a token that is not a number from `0` to `255` (an optional `+`,
//! then decimal digits) is skipped.
use vstd::prelude::*;

verus! {

/// Length in bytes of the white-space character that starts at byte `i` of
/// the UTF-8 text `s`, or `0` when none starts there.
pub open spec fn space_len(s: Seq<u8>, i: int) -> int {
    if !(0 <= i < s.len()) {
        0
    } else if s[i] == 0x20 || (0x09 <= s[i] && s[i] <= 0x0d) {
        1
    } else if s[i] == 0xc2 && i + 1 < s.len() && (s[i + 1] == 0x85 || s[i + 1] == 0xa0) {
        2
    } else if i + 2 < s.len() && ((s[i] == 0xe1 && s[i + 1] == 0x9a && s[i + 2] == 0x80) || (
    s[i] == 0xe2 && s[i + 1] == 0x80 && ((0x80 <= s[i + 2] && s[i + 2] <= 0x8a) || s[i + 2]
        == 0xa8 || s[i + 2] == 0xa9 || s[i + 2] == 0xaf)) || (s[i] == 0xe2 && s[i + 1] == 0x81
        && s[i + 2] == 0x9f) || (s[i] == 0xe3 && s[i + 1] == 0x80 && s[i + 2] == 0x80)) {
        3
    } else {
        0
    }
}

/// The tokens of `s` from byte `i` on, `cur` being the part of a token
/// already read before `i`: the maximal runs of bytes between white space.
pub open spec fn tokens_from(s: Seq<u8>, i: int, cur: Seq<u8>) -> Seq<Seq<u8>>
    decreases s.len() - i,
{
    if i >= s.len() || i < 0 {
        if cur.len() > 0 {
            seq![cur]
        } else {
            Seq::empty()
        }
    } else if space_len(s, i) > 0 {
        (if cur.len() > 0 {
            seq![cur]
        } else {
            Seq::empty()
        }) + tokens_from(s, i + space_len(s, i), Seq::empty())
    } else {
        tokens_from(s, i + 1, cur.push(s[i]))
    }
}

/// An ASCII decimal digit.
pub open spec fn is_digit(b: u8) -> bool {
    0x30 <= b && b <= 0x39
}

/// Every byte of `d` is a decimal digit.
pub open spec fn all_digits(d: Seq<u8>) -> bool {
    forall|i: int| 0 <= i < d.len() ==> is_digit(#[trigger] d[i])
}

/// The value of a string of decimal digits.
pub open spec fn digits_value(d: Seq<u8>) -> int
    decreases d.len(),
{
    if d.len() == 0 {
        0
    } else {
        digits_value(d.drop_last()) * 10 + (d.last() - 0x30)
    }
}

/// A token read as a byte-sized number: an optional `+`, then at least one
/// digit, with a value of at most 255.
pub open spec fn parse_u8(tok: Seq<u8>) -> Option<u8> {
    let d = if tok.len() > 0 && tok[0] == 0x2b {
        tok.drop_first()
    } else {
        tok
    };
    if d.len() > 0 && all_digits(d) && digits_value(d) <= 255 {
        Some(digits_value(d) as u8)
    } else {
        None
    }
}

/// The numbers among the tokens, in order.
pub open spec fn numbers_of_tokens(ts: Seq<Seq<u8>>) -> Seq<u8>
    decreases ts.len(),
{
    if ts.len() == 0 {
        Seq::empty()
    } else {
        match parse_u8(ts.last()) {
            Some(v) => numbers_of_tokens(ts.drop_last()).push(v),
            None => numbers_of_tokens(ts.drop_last()),
        }
    }
}

/// The numbers of the text `s`, in order.
pub open spec fn numbers_of(s: Seq<u8>) -> Seq<u8> {
    numbers_of_tokens(tokens_from(s, 0, Seq::empty()))
}

/// Why a puzzle text was rejected.
#[derive(PartialEq, Eq, Structural, Debug)]
pub enum InputError {
    /// The text holds no number.
    Empty,
    /// The number of tiles is not the square of the side.
    WrongTileCount { side: usize, got: usize },
}

/// The numbers of the tokens of a concatenation are those of each part.
proof fn lemma_numbers_concat(a: Seq<Seq<u8>>, b: Seq<Seq<u8>>)
    ensures
        numbers_of_tokens(a + b) == numbers_of_tokens(a) + numbers_of_tokens(b),
    decreases b.len(),
{
    if b.len() == 0 {
        assert(a + b =~= a);
        assert(numbers_of_tokens(a) + numbers_of_tokens(b) =~= numbers_of_tokens(a));
    } else {
        lemma_numbers_concat(a, b.drop_last());
        assert((a + b).drop_last() =~= a + b.drop_last());
        assert((a + b).last() == b.last());
        match parse_u8(b.last()) {
            Some(v) => {
                assert(numbers_of_tokens(a) + numbers_of_tokens(b) =~= (numbers_of_tokens(a)
                    + numbers_of_tokens(b.drop_last())).push(v));
            },
            None => {},
        }
    }
}

/// The numbers of a single token.
proof fn lemma_numbers_single(t: Seq<u8>)
    ensures
        numbers_of_tokens(seq![t]) == match parse_u8(t) {
            Some(v) => seq![v],
            None => Seq::<u8>::empty(),
        },
{
    assert(seq![t].drop_last() =~= Seq::<Seq<u8>>::empty());
    assert(numbers_of_tokens(Seq::<Seq<u8>>::empty()) =~= Seq::<u8>::empty());
    assert(Seq::<u8>::empty().push(0u8) =~= seq![0u8]);
    match parse_u8(t) {
        Some(v) => {
            assert(Seq::<u8>::empty().push(v) =~= seq![v]);
        },
        None => {},
    }
}

/// Digits only make a value grow.
proof fn lemma_digits_value_grows(d: Seq<u8>, x: u8)
    requires
        forall|i: int| 0 <= i < d.len() ==> is_digit(d[i]),
        is_digit(x),
    ensures
        digits_value(d) >= 0,
        digits_value(d.push(x)) >= digits_value(d),
    decreases d.len(),
{
    if d.len() > 0 {
        lemma_digits_value_grows(d.drop_last(), d.last());
    }
    assert(d.push(x).drop_last() =~= d);
}

/// Reads a token as a byte-sized number.
fn parse_token(tok: &Vec<u8>) -> (r: Option<u8>)
    ensures
        r == parse_u8(tok@),
{
    let ghost t = tok@;
    let start: usize = if tok.len() > 0 && tok[0] == 0x2b {
        1
    } else {
        0
    };
    let ghost d = if t.len() > 0 && t[0] == 0x2b {
        t.drop_first()
    } else {
        t
    };
    if start == tok.len() {
        return None;
    }
    let mut val: u32 = 0;
    let mut big = false;
    let mut j = start;
    while j < tok.len()
        invariant
            start <= j <= tok.len(),
            start < tok.len(),
            d == t.skip(start as int),
            d == (if t.len() > 0 && t[0] == 0x2b {
                t.drop_first()
            } else {
                t
            }),
            t == tok@,
            forall|i: int| 0 <= i < j - start ==> is_digit(d[i]),
            !big ==> val == digits_value(d.take(j - start)),
            !big ==> val <= 255,
            big ==> digits_value(d.take(j - start)) > 255,
        decreases tok.len() - j,
    {
        let b = tok[j];
        if b < 0x30 || b > 0x39 {
            proof {
                assert(d[j - start] == b);
                assert(!is_digit(d[j - start]));
            }
            return None;
        }
        let ghost p = d.take(j - start);
        proof {
            assert(d.take(j + 1 - start) =~= p.push(b));
            assert(p.push(b).drop_last() =~= p);
            lemma_digits_value_grows(p, b);
        }
        if !big {
            val = val * 10 + (b - 0x30) as u32;
            if val > 255 {
                big = true;
            }
        }
        j = j + 1;
    }
    proof {
        assert(d.take(j - start) =~= d);
    }
    if big {
        None
    } else {
        Some(val as u8)
    }
}

/// The length of the white-space character at byte `i`, or `0`.
fn space_at(s: &[u8], i: usize) -> (r: usize)
    requires
        i < s.len(),
    ensures
        r == space_len(s@, i as int),
{
    let b = s[i];
    if b == 0x20 || (0x09 <= b && b <= 0x0d) {
        1
    } else if b == 0xc2 && i + 1 < s.len() && (s[i + 1] == 0x85 || s[i + 1] == 0xa0) {
        2
    } else if s.len() - i > 2 {
        let b1 = s[i + 1];
        let b2 = s[i + 2];
        if (b == 0xe1 && b1 == 0x9a && b2 == 0x80) || (b == 0xe2 && b1 == 0x80 && ((0x80 <= b2
            && b2 <= 0x8a) || b2 == 0xa8 || b2 == 0xa9 || b2 == 0xaf)) || (b == 0xe2 && b1 == 0x81
            && b2 == 0x9f) || (b == 0xe3 && b1 == 0x80 && b2 == 0x80) {
            3
        } else {
            0
        }
    } else {
        0
    }
}

/// Appends the number the token `cur` holds, if it holds one.
fn push_number(out: &mut Vec<u8>, cur: &Vec<u8>)
    ensures
        final(out)@ == old(out)@ + numbers_of_tokens(
            if cur.len() > 0 {
                seq![cur@]
            } else {
                Seq::empty()
            },
        ),
{
    proof {
        lemma_numbers_single(cur@);
        assert(numbers_of_tokens(Seq::<Seq<u8>>::empty()) =~= Seq::<u8>::empty());
    }
    if cur.len() > 0 {
        match parse_token(cur) {
            Some(v) => {
                out.push(v);
                proof {
                    assert(final(out)@ =~= old(out)@ + seq![v]);
                }
            },
            None => {
                proof {
                    assert(out@ =~= old(out)@ + Seq::<u8>::empty());
                }
            },
        }
    } else {
        proof {
            assert(out@ =~= old(out)@ + Seq::<u8>::empty());
        }
    }
}

/// The numbers of the text, in order: each whitespace-separated token that
/// reads as a number from `0` to `255`.
pub fn parse_numbers(text: &[u8]) -> (nums: Vec<u8>)
    ensures
        nums@ == numbers_of(text@),
{
    let ghost s = text@;
    let mut out: Vec<u8> = Vec::new();
    let mut cur: Vec<u8> = Vec::new();
    let mut i: usize = 0;
    proof {
        assert(numbers_of(s) =~= out@ + numbers_of_tokens(tokens_from(s, 0, cur@)));
    }
    while i < text.len()
        invariant
            s == text@,
            i <= text.len(),
            numbers_of(s) == out@ + numbers_of_tokens(tokens_from(s, i as int, cur@)),
        decreases text.len() - i,
    {
        let sl = space_at(text, i);
        if sl > 0 {
            let ghost before = out@;
            let ghost flushed: Seq<Seq<u8>> = if cur.len() > 0 {
                seq![cur@]
            } else {
                Seq::empty()
            };
            push_number(&mut out, &cur);
            proof {
                let rest = tokens_from(s, i + sl, Seq::empty());
                assert(tokens_from(s, i as int, cur@) == flushed + rest);
                lemma_numbers_concat(flushed, rest);
                assert(numbers_of(s) =~= out@ + numbers_of_tokens(rest));
            }
            cur = Vec::new();
            proof {
                assert(cur@ =~= Seq::<u8>::empty());
            }
            i = i + sl;
        } else {
            let ghost old_cur = cur@;
            cur.push(text[i]);
            proof {
                assert(tokens_from(s, i as int, old_cur) == tokens_from(s, i + 1, cur@));
            }
            i = i + 1;
        }
    }
    let ghost before = out@;
    push_number(&mut out, &cur);
    proof {
        assert(numbers_of(s) =~= out@);
    }
    out
}

/// Reads a puzzle: the side `n`, then exactly `n * n` tiles.
pub fn parse_puzzle(text: &[u8]) -> (r: Result<(usize, Vec<u8>), InputError>)
    ensures
        numbers_of(text@).len() == 0 <==> r == Err::<(usize, Vec<u8>), InputError>(
            InputError::Empty,
        ),
        numbers_of(text@).len() > 0 && numbers_of(text@).len() - 1 != numbers_of(text@)[0]
            * numbers_of(text@)[0] <==> r == Err::<(usize, Vec<u8>), InputError>(
            InputError::WrongTileCount {
                side: numbers_of(text@)[0] as usize,
                got: (numbers_of(text@).len() - 1) as usize,
            },
        ),
        r matches Ok((n, tiles)) ==> n == numbers_of(text@)[0] && tiles@ == numbers_of(
            text@,
        ).drop_first() && tiles.len() == n * n,
{
    let nums = parse_numbers(text);
    if nums.len() == 0 {
        return Err(InputError::Empty);
    }
    let n = nums[0] as usize;
    let mut tiles: Vec<u8> = Vec::new();
    let mut i: usize = 1;
    while i < nums.len()
        invariant
            1 <= i <= nums.len(),
            tiles@ == nums@.subrange(1, i as int),
        decreases nums.len() - i,
    {
        tiles.push(nums[i]);
        proof {
            assert(nums@.subrange(1, i + 1) =~= nums@.subrange(1, i as int).push(nums@[i as int]));
        }
        i = i + 1;
    }
    proof {
        assert(nums@.subrange(1, nums.len() as int) =~= nums@.drop_first());
    }
    proof {
        assert(n * n <= 255 * 255) by (nonlinear_arith)
            requires
                n <= 255,
        ;
    }
    if tiles.len() != n * n {
        return Err(InputError::WrongTileCount { side: n, got: tiles.len() });
    }
    Ok((n, tiles))
}

/// An ASCII white-space byte, as `char::is_whitespace` counts them: tab,
/// line feed, vertical tab, form feed, carriage return and space.
pub open spec fn is_ascii_space(b: u8) -> bool {
    b == 0x09 || b == 0x0a || b == 0x0b || b == 0x0c || b == 0x0d || b == 0x20
}

/// The decimal text of `v`, most significant digit first, without leading
/// zeros.
pub open spec fn decimal(v: nat) -> Seq<u8>
    decreases v,
{
    if v < 10 {
        seq![(v + 48) as u8]
    } else {
        decimal(v / 10).push((v % 10 + 48) as u8)
    }
}

/// The numbers `vs` written out in decimal, each after its own run of white
/// space `seps[i]`.
pub open spec fn spaced_decimals(vs: Seq<u8>, seps: Seq<Seq<u8>>) -> Seq<u8>
    decreases vs.len(),
{
    if vs.len() == 0 || seps.len() < vs.len() {
        Seq::empty()
    } else {
        spaced_decimals(vs.drop_last(), seps) + seps[vs.len() - 1] + decimal(vs.last() as nat)
    }
}

/// A character whose first byte is not a UTF-8 continuation byte cannot
/// complete a white-space character begun in the text before it, so that
/// text's white space reads the same.
proof fn lemma_space_len_prefix(a: Seq<u8>, c: Seq<u8>, b: Seq<u8>, j: int)
    requires
        c.len() > 0,
        !(0x80 <= c[0] && c[0] < 0xc0),
        0 <= j < a.len(),
    ensures
        space_len(a + c + b, j) == space_len(a, j),
        j + space_len(a, j) <= a.len(),
{
    let f = a + c + b;
    assert(f[j] == a[j]);
    if j + 1 < a.len() {
        assert(f[j + 1] == a[j + 1]);
    } else {
        assert(f[j + 1] == c[0]);
    }
    if j + 2 < a.len() {
        assert(f[j + 2] == a[j + 2]);
    } else if j + 2 == a.len() {
        assert(f[j + 2] == c[0]);
    }
}

/// The white space of a text read after a prefix is its own.
proof fn lemma_space_len_suffix(p: Seq<u8>, b: Seq<u8>, k: int)
    requires
        0 <= k < b.len(),
    ensures
        space_len(p + b, p.len() + k) == space_len(b, k),
{
    let f = p + b;
    assert(f[p.len() + k] == b[k]);
    if k + 1 < b.len() {
        assert(f[p.len() + k + 1] == b[k + 1]);
    }
    if k + 2 < b.len() {
        assert(f[p.len() + k + 2] == b[k + 2]);
    }
}

/// The tokens of a text read after a prefix are its own.
proof fn lemma_tokens_suffix(p: Seq<u8>, b: Seq<u8>, k: int, cur: Seq<u8>)
    requires
        0 <= k <= b.len(),
    ensures
        tokens_from(p + b, p.len() + k, cur) == tokens_from(b, k, cur),
    decreases b.len() - k,
{
    if k < b.len() {
        lemma_space_len_suffix(p, b, k);
        let l = space_len(b, k);
        assert((p + b)[p.len() + k] == b[k]);
        if l > 0 {
            lemma_tokens_suffix(p, b, k + l, Seq::empty());
        } else {
            lemma_tokens_suffix(p, b, k + 1, cur.push(b[k]));
        }
    }
}

/// Up to a white-space character `c`, the text is read as if it ended
/// there.
proof fn lemma_tokens_prefix(a: Seq<u8>, c: Seq<u8>, b: Seq<u8>, j: int, cur: Seq<u8>)
    requires
        c.len() > 0,
        !(0x80 <= c[0] && c[0] < 0xc0),
        space_len(a + c + b, a.len() as int) == c.len(),
        0 <= j <= a.len(),
    ensures
        tokens_from(a + c + b, j, cur) == tokens_from(a, j, cur) + tokens_from(
            a + c + b,
            (a.len() + c.len()) as int,
            Seq::empty(),
        ),
    decreases a.len() - j,
{
    let f = a + c + b;
    let rest = tokens_from(f, (a.len() + c.len()) as int, Seq::empty());
    if j == a.len() {
        if cur.len() > 0 {
            assert(tokens_from(a, j, cur) == seq![cur]);
        } else {
            assert(tokens_from(a, j, cur) =~= Seq::<Seq<u8>>::empty());
            assert(Seq::<Seq<u8>>::empty() + rest =~= rest);
        }
    } else {
        lemma_space_len_prefix(a, c, b, j);
        let l = space_len(a, j);
        assert(f[j] == a[j]);
        if l > 0 {
            lemma_tokens_prefix(a, c, b, j + l, Seq::empty());
            let flushed: Seq<Seq<u8>> = if cur.len() > 0 {
                seq![cur]
            } else {
                Seq::empty()
            };
            assert(flushed + (tokens_from(a, j + l, Seq::empty()) + rest) =~= (flushed
                + tokens_from(a, j + l, Seq::empty())) + rest);
        } else {
            lemma_tokens_prefix(a, c, b, j + 1, cur.push(a[j]));
        }
    }
}

/// The empty text holds no number.
proof fn lemma_numbers_empty()
    ensures
        numbers_of(Seq::empty()) == Seq::<u8>::empty(),
{
    assert(tokens_from(Seq::<u8>::empty(), 0, Seq::empty()) =~= Seq::<Seq<u8>>::empty());
    assert(numbers_of_tokens(Seq::<Seq<u8>>::empty()) =~= Seq::<u8>::empty());
}

/// A white-space character read as one separates the numbers before it
/// from those after it.
proof fn lemma_char_separates(a: Seq<u8>, c: Seq<u8>, b: Seq<u8>)
    requires
        c.len() > 0,
        !(0x80 <= c[0] && c[0] < 0xc0),
        space_len(a + c + b, a.len() as int) == c.len(),
    ensures
        numbers_of(a + c + b) == numbers_of(a) + numbers_of(b),
{
    let p = a + c;
    assert(a + c + b == p + b);
    lemma_tokens_prefix(a, c, b, 0, Seq::empty());
    lemma_tokens_suffix(p, b, 0, Seq::empty());
    lemma_numbers_concat(tokens_from(a, 0, Seq::empty()), tokens_from(b, 0, Seq::empty()));
}

/// A white-space byte separates: the numbers of a text with one inside are
/// those before it followed by those after it.
pub proof fn lemma_space_byte_separates(a: Seq<u8>, w: u8, b: Seq<u8>)
    requires
        is_ascii_space(w),
    ensures
        numbers_of(a + seq![w] + b) == numbers_of(a) + numbers_of(b),
{
    assert((a + seq![w] + b)[a.len() as int] == w);
    lemma_char_separates(a, seq![w], b);
}

/// A Unicode code point with the White_Space property, the ones
/// `char::is_whitespace` accepts.
pub open spec fn is_white_space(cp: nat) -> bool {
    ||| 0x09 <= cp <= 0x0d
    ||| cp == 0x20
    ||| cp == 0x85
    ||| cp == 0xa0
    ||| cp == 0x1680
    ||| 0x2000 <= cp <= 0x200a
    ||| cp == 0x2028
    ||| cp == 0x2029
    ||| cp == 0x202f
    ||| cp == 0x205f
    ||| cp == 0x3000
}

/// The UTF-8 encoding of a code point below `0x10000`.
pub open spec fn utf8(cp: nat) -> Seq<u8> {
    if cp < 0x80 {
        seq![cp as u8]
    } else if cp < 0x800 {
        seq![(0xc0 + cp / 64) as u8, (0x80 + cp % 64) as u8]
    } else {
        seq![(0xe0 + cp / 4096) as u8, (0x80 + (cp / 64) % 64) as u8, (0x80 + cp % 64) as u8]
    }
}

/// Every white-space character separates: the numbers of `a`, the
/// character, then `b` are those of `a` followed by those of `b`.
pub proof fn lemma_white_space_separates(a: Seq<u8>, cp: nat, b: Seq<u8>)
    requires
        is_white_space(cp),
    ensures
        numbers_of(a + utf8(cp) + b) == numbers_of(a) + numbers_of(b),
{
    let c = utf8(cp);
    if cp < 0x80 {
        assert(c == seq![cp as u8]);
    } else if cp < 0x800 {
        assert(cp / 64 == 2 && (cp % 64 == 5 || cp % 64 == 32));
        assert(c[0] == 0xc2);
    } else if cp == 0x1680 {
        assert(cp / 4096 == 1 && (cp / 64) % 64 == 26 && cp % 64 == 0);
    } else if cp == 0x3000 {
        assert(cp / 4096 == 3 && (cp / 64) % 64 == 0 && cp % 64 == 0);
    } else if cp == 0x205f {
        assert(cp / 4096 == 2 && (cp / 64) % 64 == 1 && cp % 64 == 31);
    } else {
        assert(cp / 4096 == 2 && (cp / 64) % 64 == 0 && cp % 64 == cp - 0x2000);
    }
    let f = a + c + b;
    assert(f[a.len() as int] == c[0]);
    if c.len() > 1 {
        assert(f[a.len() + 1int] == c[1]);
    }
    if c.len() > 2 {
        assert(f[a.len() + 2int] == c[2]);
    }
    lemma_char_separates(a, c, b);
}

/// Any run of ASCII white space separates: the numbers of `a`, the run,
/// then `b` are those of `a` followed by those of `b`.
pub proof fn lemma_space_separates(a: Seq<u8>, sep: Seq<u8>, b: Seq<u8>)
    requires
        sep.len() > 0,
        forall|i: int| 0 <= i < sep.len() ==> is_ascii_space(#[trigger] sep[i]),
    ensures
        numbers_of(a + sep + b) == numbers_of(a) + numbers_of(b),
    decreases sep.len(),
{
    let w = sep[0];
    let rest = sep.drop_first();
    assert(a + sep + b =~= a + seq![w] + (rest + b));
    lemma_space_byte_separates(a, w, rest + b);
    if rest.len() > 0 {
        lemma_space_separates(Seq::empty(), rest, b);
        assert(Seq::<u8>::empty() + rest + b =~= rest + b);
        lemma_numbers_empty();
        assert(Seq::<u8>::empty() + numbers_of(b) =~= numbers_of(b));
    } else {
        assert(rest + b =~= b);
    }
}

/// Replacing an ASCII white-space byte by a space changes no number.
pub proof fn lemma_space_kind_irrelevant(s: Seq<u8>, i: int)
    requires
        0 <= i < s.len(),
        is_ascii_space(s[i]),
    ensures
        numbers_of(s.update(i, 0x20)) == numbers_of(s),
{
    let a = s.take(i);
    let b = s.skip(i + 1);
    assert(s =~= a + seq![s[i]] + b);
    assert(s.update(i, 0x20) =~= a + seq![0x20u8] + b);
    lemma_space_byte_separates(a, s[i], b);
    lemma_space_byte_separates(a, 0x20, b);
}

/// The decimal text of a number is made of digits, starts with one, and
/// has the number's value.
proof fn lemma_decimal_digits(v: nat)
    ensures
        decimal(v).len() > 0,
        all_digits(decimal(v)),
        digits_value(decimal(v)) == v,
    decreases v,
{
    if v >= 10 {
        lemma_decimal_digits(v / 10);
        let d = decimal(v / 10);
        let x = (v % 10 + 48) as u8;
        assert(x == v % 10 + 48);
        let e = d.push(x);
        assert(e.drop_last() =~= d);
        assert(e.last() == x);
        assert(digits_value(e) == digits_value(d) * 10 + (x - 0x30));
        assert(v == (v / 10) * 10 + v % 10);
        assert forall|i: int| 0 <= i < e.len() implies is_digit(#[trigger] e[i]) by {
            if i < d.len() {
                assert(e[i] == d[i]);
            }
        }
    } else {
        let x = (v + 48) as u8;
        assert(x == v + 48);
        let e = seq![x];
        assert(e.drop_last() =~= Seq::<u8>::empty());
        assert(digits_value(Seq::<u8>::empty()) == 0);
        assert(digits_value(e) == digits_value(Seq::<u8>::empty()) * 10 + (x - 0x30));
    }
}

/// A text with no white space is one token.
proof fn lemma_one_token(s: Seq<u8>, i: int)
    requires
        s.len() > 0,
        0 <= i <= s.len(),
        forall|k: int| 0 <= k < s.len() ==> space_len(s, k) == 0,
    ensures
        tokens_from(s, i, s.take(i)) == seq![s],
    decreases s.len() - i,
{
    if i < s.len() {
        assert(space_len(s, i) == 0);
        assert(s.take(i).push(s[i]) =~= s.take(i + 1));
        lemma_one_token(s, i + 1);
    } else {
        assert(s.take(i) =~= s);
    }
}

/// The decimal text of every byte value reads as that value.
pub proof fn lemma_decimal_reads_back(v: u8)
    ensures
        parse_u8(decimal(v as nat)) == Some(v),
        numbers_of(decimal(v as nat)) == seq![v],
{
    let d = decimal(v as nat);
    lemma_decimal_digits(v as nat);
    assert(is_digit(d[0]));
    assert forall|k: int| 0 <= k < d.len() implies space_len(d, k) == 0 by {
        assert(is_digit(d[k]));
    }
    lemma_one_token(d, 0);
    assert(d.take(0) =~= Seq::<u8>::empty());
    lemma_numbers_single(d);
}

/// A text of one byte holds a number exactly when the byte is a decimal
/// digit, and then the digit's value.
pub proof fn lemma_single_byte_text(x: u8)
    ensures
        numbers_of(seq![x]) == (if 0x30 <= x && x <= 0x39 {
            seq![(x - 0x30) as u8]
        } else {
            Seq::<u8>::empty()
        }),
{
    let s = seq![x];
    if space_len(s, 0) > 0 {
        assert(tokens_from(s, 1, Seq::empty()) =~= Seq::<Seq<u8>>::empty());
        assert(tokens_from(s, 0, Seq::empty()) =~= Seq::<Seq<u8>>::empty());
        assert(numbers_of_tokens(Seq::<Seq<u8>>::empty()) =~= Seq::<u8>::empty());
    } else {
        lemma_one_token(s, 0);
        assert(s.take(0) =~= Seq::<u8>::empty());
        lemma_numbers_single(s);
        if 0x30 <= x && x <= 0x39 {
            assert(s.drop_last() =~= Seq::<u8>::empty());
            assert(digits_value(Seq::<u8>::empty()) == 0);
            assert(digits_value(s) == x - 0x30);
            assert(all_digits(s));
        } else if x == 0x2b {
            assert(s.drop_first() =~= Seq::<u8>::empty());
        } else {
            assert(!is_digit(s[0]));
        }
    }
}

/// Numbers written out in decimal, each after a run of ASCII white space,
/// read back as those numbers.
pub proof fn lemma_spaced_decimals_read_back(vs: Seq<u8>, seps: Seq<Seq<u8>>)
    requires
        seps.len() == vs.len(),
        forall|i: int| 0 <= i < seps.len() ==> (#[trigger] seps[i]).len() > 0,
        forall|i: int, j: int|
            0 <= i < seps.len() && 0 <= j < seps[i].len() ==> is_ascii_space(#[trigger] seps[i][j]),
    ensures
        numbers_of(spaced_decimals(vs, seps)) == vs,
    decreases vs.len(),
{
    if vs.len() == 0 {
        lemma_numbers_empty();
        assert(vs =~= Seq::<u8>::empty());
    } else {
        let pre = vs.drop_last();
        let v = vs.last();
        let sep = seps[vs.len() - 1];
        lemma_spaced_decimals_read_back(pre, seps.take(pre.len() as int));
        assert(spaced_decimals(pre, seps.take(pre.len() as int)) == spaced_decimals(pre, seps))
            by {
            lemma_spaced_decimals_take(pre, seps, pre.len() as int);
        }
        assert forall|j: int| 0 <= j < sep.len() implies is_ascii_space(#[trigger] sep[j]) by {
            assert(is_ascii_space(seps[vs.len() - 1][j]));
        }
        lemma_space_separates(spaced_decimals(pre, seps), sep, decimal(v as nat));
        lemma_decimal_reads_back(v);
        assert(pre.push(v) =~= vs);
    }
}

/// Only the first `vs.len()` runs of white space are used.
proof fn lemma_spaced_decimals_take(vs: Seq<u8>, seps: Seq<Seq<u8>>, m: int)
    requires
        vs.len() <= m <= seps.len(),
    ensures
        spaced_decimals(vs, seps.take(m)) == spaced_decimals(vs, seps),
    decreases vs.len(),
{
    if vs.len() > 0 {
        lemma_spaced_decimals_take(vs.drop_last(), seps, m);
        assert(seps.take(m)[vs.len() - 1] == seps[vs.len() - 1]);
    }
}

/// A text of ASCII bytes other than white space is one token.
proof fn lemma_plain_token(t: Seq<u8>)
    requires
        t.len() > 0,
        forall|k: int| 0 <= k < t.len() ==> #[trigger] t[k] < 0x80 && !is_ascii_space(t[k]),
    ensures
        numbers_of(t) == match parse_u8(t) {
            Some(v) => seq![v],
            None => Seq::<u8>::empty(),
        },
{
    assert forall|k: int| 0 <= k < t.len() implies space_len(t, k) == 0 by {
        assert(t[k] < 0x80 && !is_ascii_space(t[k]));
    }
    lemma_one_token(t, 0);
    assert(t.take(0) =~= Seq::<u8>::empty());
    lemma_numbers_single(t);
}

/// The decimal text of a number has only digits.
proof fn lemma_decimal_plain(v: nat)
    ensures
        forall|k: int|
            0 <= k < decimal(v).len() ==> 0x30 <= #[trigger] decimal(v)[k] && decimal(v)[k]
                <= 0x39,
{
    lemma_decimal_digits(v);
    assert forall|k: int| 0 <= k < decimal(v).len() implies 0x30 <= #[trigger] decimal(v)[k]
        && decimal(v)[k] <= 0x39 by {
        assert(is_digit(decimal(v)[k]));
    }
}

/// A leading `+` and leading zeros do not change a number.
pub proof fn lemma_sign_and_zeros(v: u8, zeros: nat)
    ensures
        numbers_of(seq![0x2bu8] + Seq::new(zeros, |i: int| 0x30u8) + decimal(v as nat))
            == seq![v],
        numbers_of(Seq::new(zeros, |i: int| 0x30u8) + decimal(v as nat)) == seq![v],
{
    let z = Seq::new(zeros, |i: int| 0x30u8);
    let d = decimal(v as nat);
    let zd = z + d;
    let t = seq![0x2bu8] + zd;
    lemma_decimal_digits(v as nat);
    lemma_decimal_plain(v as nat);
    assert forall|k: int| 0 <= k < zd.len() implies 0x30 <= #[trigger] zd[k] && zd[k] <= 0x39 by {
        if k >= z.len() {
            assert(zd[k] == d[k - z.len()]);
        }
    }
    lemma_zeros_value(z, d);
    assert(t.drop_first() =~= zd);
    assert(all_digits(zd));
    assert(zd[0] != 0x2b);
    lemma_plain_token(zd);
    assert forall|k: int| 0 <= k < t.len() implies #[trigger] t[k] < 0x80 && !is_ascii_space(t[k]) by {
        if k > 0 {
            assert(t[k] == zd[k - 1]);
        }
    }
    lemma_plain_token(t);
    assert(seq![0x2bu8] + z + d =~= t);
    assert(digits_value(zd) == v);
}

/// Leading zeros add nothing to the value of digits.
proof fn lemma_zeros_value(z: Seq<u8>, d: Seq<u8>)
    requires
        forall|i: int| 0 <= i < z.len() ==> z[i] == 0x30,
    ensures
        digits_value(z + d) == digits_value(d) + digits_value(z) * pow10(d.len()),
        digits_value(z) == 0,
    decreases d.len(),
{
    lemma_zeros_only(z);
    if d.len() == 0 {
        assert(z + d =~= z);
    } else {
        lemma_zeros_value(z, d.drop_last());
        assert((z + d).drop_last() =~= z + d.drop_last());
        assert((z + d).last() == d.last());
    }
}

/// Zeros are worth nothing.
proof fn lemma_zeros_only(z: Seq<u8>)
    requires
        forall|i: int| 0 <= i < z.len() ==> z[i] == 0x30,
    ensures
        digits_value(z) == 0,
    decreases z.len(),
{
    if z.len() > 0 {
        lemma_zeros_only(z.drop_last());
    }
}

/// Ten to the power `k`.
pub open spec fn pow10(k: nat) -> nat
    decreases k,
{
    if k == 0 {
        1
    } else {
        10 * pow10((k - 1) as nat)
    }
}

/// A number too large for a byte is no number.
pub proof fn lemma_too_large(v: nat)
    requires
        v > 255,
    ensures
        numbers_of(decimal(v)) == Seq::<u8>::empty(),
{
    lemma_decimal_digits(v);
    lemma_decimal_plain(v);
    lemma_plain_token(decimal(v));
    assert(decimal(v)[0] != 0x2b);
}

/// A token with a byte that is neither a digit nor white space after its
/// digits is no number.
pub proof fn lemma_trailing_junk(v: u8, x: u8)
    requires
        x < 0x80,
        !is_ascii_space(x),
        !(0x30 <= x && x <= 0x39),
    ensures
        numbers_of(decimal(v as nat) + seq![x]) == Seq::<u8>::empty(),
{
    let d = decimal(v as nat);
    let t = d + seq![x];
    lemma_decimal_digits(v as nat);
    lemma_decimal_plain(v as nat);
    assert forall|k: int| 0 <= k < t.len() implies #[trigger] t[k] < 0x80 && !is_ascii_space(t[k]) by {
        if k < d.len() {
            assert(t[k] == d[k]);
        }
    }
    lemma_plain_token(t);
    assert(t[0] == d[0]);
    assert(t[t.len() - 1] == x);
    assert(!is_digit(t[t.len() - 1]));
}

} // verus!
