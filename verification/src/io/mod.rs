use vstd::prelude::*;
use vstd::utf8::{decode_utf8, valid_utf8};

verus! {

/// ASCII whitespace as `u8::is_ascii_whitespace` has it: space, tab, line feed, form feed and
/// carriage return.
pub open spec fn is_blank(b: u8) -> bool {
    b == 0x20 || b == 0x09 || b == 0x0a || b == 0x0c || b == 0x0d
}

fn is_ascii_whitespace(b: u8) -> (r: bool)
    ensures
        r == is_blank(b),
{
    b == 0x20 || b == 0x09 || b == 0x0a || b == 0x0c || b == 0x0d
}

/// `std::str::from_utf8` followed by `to_string`: the text the bytes encode, or `None` where they
/// are not UTF-8.
#[verifier::external_body]
fn utf8_to_string(bytes: &[u8]) -> (r: Option<String>)
    ensures
        r is Some <==> valid_utf8(bytes@),
        r matches Some(s) ==> s@ == decode_utf8(bytes@),
{
    match std::str::from_utf8(bytes) {
        Ok(s) => Some(s.to_string()),
        Err(_) => None,
    }
}

/// `&bytes[start..end]`.
fn slice_range(bytes: &[u8], start: usize, end: usize) -> (r: &[u8])
    requires
        start <= end <= bytes.len(),
    ensures
        r@ == bytes@.subrange(start as int, end as int),
{
    let (head, _) = bytes.split_at(end);
    let (_, piece) = head.split_at(start);
    piece
}

/// What a look at the buffer gives.
pub enum TokenStep {
    /// The next token.
    Token(String),
    /// The buffer holds no more tokens: a new line has to be read.
    NeedLine,
    /// The next token is not UTF-8.
    NotUtf8,
}

/// Whether `buf[start..end]` is the next token at or after `from`: only blanks before it, no blank
/// in it, and a blank or the end of the buffer after it.
pub open spec fn next_token_at(buf: Seq<u8>, from: int, start: int, end: int) -> bool {
    &&& from <= start < end <= buf.len()
    &&& forall|i: int| from <= i < start ==> is_blank(#[trigger] buf[i])
    &&& forall|i: int| start <= i < end ==> !is_blank(#[trigger] buf[i])
    &&& end == buf.len() || is_blank(buf[end])
}

/// How many bytes `s` begins with before its first blank.
pub open spec fn run_len(s: Seq<u8>) -> nat
    decreases s.len(),
{
    if s.len() == 0 || is_blank(s[0]) {
        0
    } else {
        1 + run_len(s.drop_first())
    }
}

/// The leading run is no longer than `s`, and not empty where `s` begins with a byte that is not
/// blank.
pub proof fn lemma_run_len_bound(s: Seq<u8>)
    ensures
        run_len(s) <= s.len(),
        s.len() > 0 && !is_blank(s[0]) ==> run_len(s) >= 1,
    decreases s.len(),
{
    if s.len() > 0 && !is_blank(s[0]) {
        lemma_run_len_bound(s.drop_first());
    }
}

/// The whitespace-separated tokens of `s`, in order: its maximal runs of bytes that are not blank.
pub open spec fn tokens(s: Seq<u8>) -> Seq<Seq<u8>>
    decreases s.len(),
{
    if s.len() == 0 {
        Seq::empty()
    } else if is_blank(s[0]) {
        tokens(s.drop_first())
    } else {
        proof {
            lemma_run_len_bound(s);
        }
        seq![s.take(run_len(s) as int)] + tokens(s.skip(run_len(s) as int))
    }
}

/// A run of `m` bytes that are not blank, followed by a blank or the end, has length `m`.
proof fn lemma_run_len_exact(s: Seq<u8>, m: int)
    requires
        0 <= m <= s.len(),
        forall|i: int| 0 <= i < m ==> !is_blank(#[trigger] s[i]),
        m == s.len() || is_blank(s[m]),
    ensures
        run_len(s) == m,
    decreases m,
{
    if m > 0 {
        lemma_run_len_exact(s.drop_first(), m - 1);
    }
}

/// Blanks before the first token change nothing.
proof fn lemma_tokens_skip_blanks(s: Seq<u8>, from: int, to: int)
    requires
        0 <= from <= to <= s.len(),
        forall|i: int| from <= i < to ==> is_blank(#[trigger] s[i]),
    ensures
        tokens(s.skip(from)) == tokens(s.skip(to)),
    decreases to - from,
{
    if from < to {
        assert(s.skip(from).drop_first() =~= s.skip(from + 1));
        assert(is_blank(s[from]));
        lemma_tokens_skip_blanks(s, from + 1, to);
    }
}

/// The tokens from `from` on are the next token at or after `from`, then the tokens after it.
proof fn lemma_tokens_next(s: Seq<u8>, from: int, start: int, end: int)
    requires
        0 <= from,
        next_token_at(s, from, start, end),
    ensures
        tokens(s.skip(from)) == seq![s.subrange(start, end)] + tokens(s.skip(end)),
{
    lemma_tokens_skip_blanks(s, from, start);
    let t = s.skip(start);
    assert forall|i: int| 0 <= i < end - start implies !is_blank(#[trigger] t[i]) by {
        assert(t[i] == s[start + i]);
    }
    if end < s.len() {
        assert(t[end - start] == s[end]);
    }
    lemma_run_len_exact(t, end - start);
    assert(t.take(end - start) =~= s.subrange(start, end));
    assert(t.skip(end - start) =~= s.skip(end));
}

/// The tokens of two pieces of input, the first of which ends in a blank, are the tokens of the
/// first followed by those of the second: no token spans a line that ends in a line feed.
pub proof fn lemma_tokens_append(a: Seq<u8>, b: Seq<u8>)
    requires
        a.len() == 0 || is_blank(a.last()),
    ensures
        tokens(a + b) == tokens(a) + tokens(b),
    decreases a.len(),
{
    if a.len() == 0 {
        assert(a + b =~= b);
    } else if is_blank(a[0]) {
        assert((a + b).drop_first() =~= a.drop_first() + b);
        lemma_tokens_append(a.drop_first(), b);
    } else {
        let ab = a + b;
        let m = run_len(a);
        lemma_run_len_bound(a);
        assert forall|i: int| 0 <= i < m implies !is_blank(#[trigger] a[i]) by {
            lemma_run_prefix(a, i);
        }
        lemma_run_stops(a);
        assert(m < a.len());
        assert forall|i: int| 0 <= i < m implies !is_blank(#[trigger] ab[i]) by {
            assert(ab[i] == a[i]);
        }
        assert(ab[m as int] == a[m as int]);
        lemma_run_len_exact(ab, m as int);
        assert(ab.take(m as int) =~= a.take(m as int));
        assert(ab.skip(m as int) =~= a.skip(m as int) + b);
        assert(a.skip(m as int).last() == a.last());
        lemma_tokens_append(a.skip(m as int), b);
    }
}

/// The tokens of input read line by line, each line but the last ending in a blank (as a line
/// feed is), are the tokens of its lines one after another: going through the lines' tokens in
/// order gives those of the whole input, none skipped, split or repeated.
pub proof fn lemma_tokens_of_lines(lines: Seq<Seq<u8>>)
    requires
        forall|i: int| 0 <= i < lines.len() - 1 ==> #[trigger] lines[i].len() > 0 && is_blank(
            lines[i].last(),
        ),
    ensures
        tokens(lines.flatten()) == lines.map_values(|l: Seq<u8>| tokens(l)).flatten(),
    decreases lines.len(),
{
    let per_line = lines.map_values(|l: Seq<u8>| tokens(l));
    if lines.len() == 0 {
        assert(per_line.len() == 0);
    } else {
        let rest = lines.drop_first();
        assert forall|i: int| 0 <= i < rest.len() - 1 implies #[trigger] rest[i].len() > 0
            && is_blank(rest[i].last()) by {
            assert(rest[i] == lines[i + 1]);
        }
        lemma_tokens_of_lines(rest);
        assert(per_line.drop_first() =~= rest.map_values(|l: Seq<u8>| tokens(l)));
        if lines.len() == 1 {
            assert(rest.flatten() =~= Seq::<u8>::empty());
            assert(lines.flatten() =~= lines[0]);
            assert(per_line.drop_first().flatten() =~= Seq::<Seq<u8>>::empty());
            assert(tokens(Seq::<u8>::empty()) =~= Seq::<Seq<u8>>::empty());
            assert(per_line.flatten() =~= tokens(lines[0]));
        } else {
            assert(lines[0].len() > 0 && is_blank(lines[0].last()));
            lemma_tokens_append(lines[0], rest.flatten());
        }
    }
}

/// The bytes that separate tokens are exactly the ASCII whitespace bytes: space, tab, line feed,
/// form feed and carriage return.
pub proof fn lemma_blank_is_ascii_whitespace(b: u8)
    ensures
        is_blank(b) <==> (b == 32 || b == 9 || b == 10 || b == 12 || b == 13),
{
}

/// A run of bytes none of which is ASCII whitespace (space, tab, line feed, form feed, carriage
/// return) is one token, whatever else it holds, such as `3.14`.
pub proof fn lemma_word_is_one_token(s: Seq<u8>)
    requires
        s.len() > 0,
        forall|i: int|
            0 <= i < s.len() ==> #[trigger] s[i] != 32 && s[i] != 9 && s[i] != 10 && s[i] != 12
                && s[i] != 13,
    ensures
        tokens(s) == seq![s],
{
    assert forall|i: int| 0 <= i < s.len() implies !is_blank(#[trigger] s[i]) by {
        lemma_blank_is_ascii_whitespace(s[i]);
    }
    lemma_run_len_exact(s, s.len() as int);
    assert(s.take(s.len() as int) =~= s);
    assert(s.skip(s.len() as int) =~= Seq::<u8>::empty());
    assert(tokens(Seq::<u8>::empty()) =~= Seq::<Seq<u8>>::empty());
    assert(seq![s] + Seq::<Seq<u8>>::empty() =~= seq![s]);
}

/// An ASCII whitespace byte between two pieces of input separates their tokens.
pub proof fn lemma_whitespace_separates(a: Seq<u8>, w: u8, b: Seq<u8>)
    requires
        w == 32 || w == 9 || w == 10 || w == 12 || w == 13,
    ensures
        tokens(a + seq![w] + b) == tokens(a) + tokens(b),
{
    lemma_blank_is_ascii_whitespace(w);
    let aw = a + seq![w];
    assert(aw.last() == w);
    lemma_tokens_append(aw, b);
    assert(aw =~= a.push(w));
    lemma_tokens_push_blank(a, w);
}

/// A blank at the end adds no token.
proof fn lemma_tokens_push_blank(s: Seq<u8>, w: u8)
    requires
        is_blank(w),
    ensures
        tokens(s.push(w)) == tokens(s),
    decreases s.len(),
{
    let sw = s.push(w);
    if s.len() == 0 {
        assert(sw[0] == w);
        assert(sw.drop_first() =~= Seq::<u8>::empty());
        assert(tokens(Seq::<u8>::empty()) =~= Seq::<Seq<u8>>::empty());
    } else if is_blank(s[0]) {
        assert(sw[0] == s[0]);
        assert(sw.drop_first() =~= s.drop_first().push(w));
        lemma_tokens_push_blank(s.drop_first(), w);
    } else {
        let m = run_len(s);
        assert(sw[0] == s[0]);
        lemma_run_len_bound(s);
        lemma_run_stops(s);
        assert forall|i: int| 0 <= i < m implies !is_blank(#[trigger] sw[i]) by {
            lemma_run_prefix(s, i);
        }
        if m < s.len() {
            assert(sw[m as int] == s[m as int]);
        }
        lemma_run_len_exact(sw, m as int);
        assert(sw.take(m as int) =~= s.take(m as int));
        assert(sw.skip(m as int) =~= s.skip(m as int).push(w));
        lemma_tokens_push_blank(s.skip(m as int), w);
    }
}

/// The first `run_len(s)` bytes of `s` are not blank.
proof fn lemma_run_prefix(s: Seq<u8>, i: int)
    requires
        0 <= i < run_len(s),
    ensures
        !is_blank(s[i]),
    decreases i,
{
    lemma_run_len_bound(s);
    if i > 0 {
        lemma_run_prefix(s.drop_first(), i - 1);
        assert(s.drop_first()[i - 1] == s[i]);
    }
}

/// The run ends at a blank or at the end of `s`.
proof fn lemma_run_stops(s: Seq<u8>)
    ensures
        run_len(s) <= s.len(),
        run_len(s) == s.len() || is_blank(s[run_len(s) as int]),
    decreases s.len(),
{
    if s.len() > 0 && !is_blank(s[0]) {
        lemma_run_stops(s.drop_first());
    }
}

/// All blanks from `from` on leave no token.
proof fn lemma_tokens_blank(s: Seq<u8>, from: int)
    requires
        0 <= from <= s.len(),
        forall|i: int| from <= i < s.len() ==> is_blank(#[trigger] s[i]),
    ensures
        tokens(s.skip(from)) == Seq::<Seq<u8>>::empty(),
{
    lemma_tokens_skip_blanks(s, from, s.len() as int);
    assert(s.skip(s.len() as int) =~= Seq::<u8>::empty());
}

/// The tokenizer's state: the line being read and the position in it. Reading lines is left to the
/// caller, which hands each line in with `refill`.
pub struct StdinSource {
    buf: Vec<u8>,
    pos: usize,
}

impl StdinSource {
    #[verifier::type_invariant]
    spec fn pos_in_buffer(self) -> bool {
        self.pos <= self.buf.len()
    }

    /// The line being read.
    pub closed spec fn buffer(&self) -> Seq<u8> {
        self.buf@
    }

    /// How far the line has been read.
    pub closed spec fn position(&self) -> int {
        self.pos as int
    }

    /// The tokens of the line that are still to be read.
    pub open spec fn pending(&self) -> Seq<Seq<u8>> {
        tokens(self.buffer().skip(self.position()))
    }

    /// A tokenizer with nothing read yet.
    pub fn new() -> (r: Self)
        ensures
            r.buffer() == Seq::<u8>::empty(),
            r.position() == 0,
    {
        StdinSource { buf: Vec::new(), pos: 0 }
    }

    /// Replaces the buffer with a freshly read line and starts at its beginning.
    pub fn refill(&mut self, line: Vec<u8>)
        ensures
            final(self).buffer() == line@,
            final(self).position() == 0,
            final(self).pending() == tokens(line@),
    {
        *self = StdinSource { buf: line, pos: 0 };
        assert(line@.skip(0) =~= line@);
    }

    /// Takes the next whitespace-separated token from the buffer; `NeedLine` when only blanks are
    /// left, in which case the whole buffer counts as read. Successive calls go through the pending
    /// tokens in order, none skipped, split or repeated.
    pub fn next_token(&mut self) -> (r: TokenStep)
        ensures
            final(self).buffer() == old(self).buffer(),
            0 <= old(self).position() <= old(self).buffer().len(),
            r is NeedLine <==> old(self).pending().len() == 0,
            r is NeedLine ==> final(self).pending().len() == 0,
            !(r is NeedLine) ==> final(self).pending() == old(self).pending().drop_first(),
            r matches TokenStep::Token(s) ==> valid_utf8(old(self).pending()[0]) && s@
                == decode_utf8(old(self).pending()[0]),
            r is NotUtf8 ==> !valid_utf8(old(self).pending()[0]),
            match r {
                TokenStep::NeedLine => {
                    &&& forall|i: int|
                        old(self).position() <= i < old(self).buffer().len() ==> is_blank(
                            #[trigger] old(self).buffer()[i],
                        )
                    &&& final(self).position() == old(self).buffer().len()
                },
                TokenStep::Token(s) => exists|start: int|
                    next_token_at(old(self).buffer(), old(self).position(), start, final(self).position())
                        && valid_utf8(old(self).buffer().subrange(start, final(self).position()))
                        && s@ == decode_utf8(old(self).buffer().subrange(start, final(self).position())),
                TokenStep::NotUtf8 => exists|start: int|
                    next_token_at(old(self).buffer(), old(self).position(), start, final(self).position())
                        && !valid_utf8(old(self).buffer().subrange(start, final(self).position())),
            },
    {
        proof {
            use_type_invariant(&*self);
        }
        let ghost from = self.pos as int;
        let len = self.buf.len();
        let mut p = self.pos;
        while p < len && is_ascii_whitespace(self.buf[p])
            invariant
                from <= p <= len,
                len == self.buf.len(),
                forall|i: int| from <= i < p ==> is_blank(#[trigger] self.buf@[i]),
            decreases len - p,
        {
            p = p + 1;
        }
        if p == len {
            proof {
                lemma_tokens_blank(self.buf@, from);
                lemma_tokens_blank(self.buf@, len as int);
            }
            self.pos = len;
            return TokenStep::NeedLine;
        }
        let start = p;
        while p < len && !is_ascii_whitespace(self.buf[p])
            invariant
                start <= p <= len,
                len == self.buf.len(),
                forall|i: int| start <= i < p ==> !is_blank(#[trigger] self.buf@[i]),
            decreases len - p,
        {
            p = p + 1;
        }
        assert(!is_blank(self.buf@[start as int]));
        assert(next_token_at(self.buf@, from, start as int, p as int));
        proof {
            lemma_tokens_next(self.buf@, from, start as int, p as int);
            assert((seq![self.buf@.subrange(start as int, p as int)] + tokens(
                self.buf@.skip(p as int),
            )).drop_first() =~= tokens(self.buf@.skip(p as int)));
        }
        self.pos = p;
        let bytes = self.buf.as_slice();
        let piece = slice_range(bytes, start, p);
        let token = utf8_to_string(piece);
        assert(old(self).buffer() == self.buf@ && old(self).position() == from);
        assert(next_token_at(old(self).buffer(), old(self).position(), start as int, self.position()));
        assert(piece@ == old(self).buffer().subrange(start as int, self.position()));
        match token {
            Some(s) => TokenStep::Token(s),
            None => TokenStep::NotUtf8,
        }
    }
}

impl Default for StdinSource {
    fn default() -> (r: Self)
        ensures
            r.buffer() == Seq::<u8>::empty(),
            r.position() == 0,
    {
        Self::new()
    }
}


/// Whether `c` is a decimal digit.
pub open spec fn is_digit(c: char) -> bool {
    '0' <= c <= '9'
}

/// The number that a string of decimal digits denotes.
pub open spec fn digits_value(s: Seq<char>) -> nat
    decreases s.len(),
{
    if s.len() == 0 {
        0
    } else {
        digits_value(s.drop_last()) * 10 + (s.last() as nat - '0' as nat) as nat
    }
}

/// Whether `s` is a nonempty string of decimal digits.
pub open spec fn all_digits(s: Seq<char>) -> bool {
    s.len() > 0 && forall|i: int| 0 <= i < s.len() ==> is_digit(#[trigger] s[i])
}

/// The integer a decimal numeral denotes, as `str::parse` reads one: digits after an optional `+`,
/// or, for a signed type, `-`.
pub open spec fn numeral_value(s: Seq<char>, signed: bool) -> Option<int> {
    if s.len() > 0 && s[0] == '-' && signed {
        if all_digits(s.drop_first()) {
            Some(-(digits_value(s.drop_first()) as int))
        } else {
            None
        }
    } else if s.len() > 0 && s[0] == '+' {
        if all_digits(s.drop_first()) {
            Some(digits_value(s.drop_first()) as int)
        } else {
            None
        }
    } else if all_digits(s) {
        Some(digits_value(s) as int)
    } else {
        None
    }
}

/// The value of `s` as an integer between `lo` and `hi`, if it denotes one.
pub open spec fn numeral_in_range(s: Seq<char>, signed: bool, lo: int, hi: int) -> Option<int> {
    match numeral_value(s, signed) {
        Some(v) => if lo <= v <= hi {
            Some(v)
        } else {
            None
        },
        None => None,
    }
}

proof fn lemma_digits_value_push(s: Seq<char>, c: char)
    ensures
        digits_value(s.push(c)) == digits_value(s) * 10 + (c as nat - '0' as nat) as nat,
{
    assert(s.push(c).drop_last() =~= s);
}

proof fn lemma_digits_value_monotone(s: Seq<char>, k: nat)
    requires
        all_digits(s),
        0 < k <= s.len(),
    ensures
        digits_value(s.take(k as int)) <= digits_value(s),
    decreases s.len(),
{
    if k < s.len() {
        let r = s.drop_last();
        assert(s.take(k as int) =~= r.take(k as int));
        assert(is_digit(s[s.len() - 1]));
        if r.len() > 0 {
            assert forall|i: int| 0 <= i < r.len() implies is_digit(#[trigger] r[i]) by {
                assert(r[i] == s[i]);
            }
            lemma_digits_value_monotone(r, k);
        }
    } else {
        assert(s.take(k as int) =~= s);
    }
}

/// Reads the digits of `token` from position `from` on: their value, or `None` where one is not a
/// digit, there are none, or the value passes `u128::MAX`.
fn parse_digits(token: &str, from: usize) -> (r: Option<u128>)
    requires
        from <= token@.len(),
    ensures
        ({
            let d = token@.subrange(from as int, token@.len() as int);
            match r {
                Some(m) => all_digits(d) && m == digits_value(d),
                None => !all_digits(d) || digits_value(d) > u128::MAX,
            }
        }),
{
    let len = token.unicode_len();
    if from == len {
        return None;
    }
    let ghost t = token@;
    let mut acc: u128 = 0;
    let mut i = from;
    while i < len
        invariant
            from <= i <= len,
            len == t.len(),
            t == token@,
            forall|j: int| from <= j < i ==> is_digit(#[trigger] t[j]),
            acc == digits_value(t.subrange(from as int, i as int)),
        decreases len - i,
    {
        let c = token.get_char(i);
        proof {
            lemma_digits_value_push(t.subrange(from as int, i as int), c);
            assert(t.subrange(from as int, i + 1) =~= t.subrange(from as int, i as int).push(c));
        }
        if !('0' <= c && c <= '9') {
            assert(!is_digit(t.subrange(from as int, len as int)[i - from]));
            return None;
        }
        let digit = (c as u32 - '0' as u32) as u128;
        let next = match acc.checked_mul(10) {
            Some(x) => x.checked_add(digit),
            None => None,
        };
        match next {
            Some(v) => {
                acc = v;
            },
            None => {
                proof {
                    let d = t.subrange(from as int, len as int);
                    if all_digits(d) {
                        lemma_digits_value_monotone(d, (i + 1 - from) as nat);
                        assert(d.take((i + 1 - from) as int) =~= t.subrange(from as int, i + 1));
                    }
                }
                return None;
            },
        }
        i = i + 1;
    }
    assert(t.subrange(from as int, len as int) =~= t.subrange(from as int, i as int));
    Some(acc)
}


/// Reads a decimal numeral: whether it has a minus sign, and the value of its digits; `None` where
/// `token` is not a numeral or its digits pass `u128::MAX`.
fn parse_numeral(token: &str, signed: bool) -> (r: Option<(bool, u128)>)
    ensures
        match r {
            Some((neg, m)) => numeral_value(token@, signed) == Some(
                if neg {
                    -(m as int)
                } else {
                    m as int
                },
            ),
            None => numeral_value(token@, signed) matches Some(v) ==> v > u128::MAX || v < -(
            u128::MAX as int),
        },
{
    let len = token.unicode_len();
    if len == 0 {
        return None;
    }
    let first = token.get_char(0);
    assert(token@.drop_first() =~= token@.subrange(1, len as int));
    assert(token@ =~= token@.subrange(0, len as int));
    if first == '-' && signed {
        match parse_digits(token, 1) {
            Some(m) => Some((true, m)),
            None => None,
        }
    } else if first == '+' {
        match parse_digits(token, 1) {
            Some(m) => Some((false, m)),
            None => None,
        }
    } else {
        match parse_digits(token, 0) {
            Some(m) => Some((false, m)),
            None => None,
        }
    }
}

/// Values that a whitespace-separated token of input can be read as.
pub trait FromInput: Sized {
    /// Whether `token` reads as some value.
    spec fn readable(token: Seq<char>) -> bool;

    /// Whether `token` reads as `value`.
    spec fn denotes(token: Seq<char>, value: Self) -> bool;

    /// The value `token` reads as, as `str::parse` reads it; `None` where it reads as none.
    fn read_from(token: &str) -> (r: Option<Self>)
        ensures
            r is Some <==> Self::readable(token@),
            r matches Some(v) ==> Self::denotes(token@, v),
    ;
}

impl FromInput for bool {
    open spec fn readable(token: Seq<char>) -> bool {
        token == seq!['t', 'r', 'u', 'e'] || token == seq!['f', 'a', 'l', 's', 'e']
    }

    open spec fn denotes(token: Seq<char>, value: bool) -> bool {
        value == (token == seq!['t', 'r', 'u', 'e'])
    }

    fn read_from(token: &str) -> (r: Option<bool>) {
        let len = token.unicode_len();
        if len == 4 && token.get_char(0) == 't' && token.get_char(1) == 'r' && token.get_char(2)
            == 'u' && token.get_char(3) == 'e' {
            assert(token@ =~= seq!['t', 'r', 'u', 'e']);
            Some(true)
        } else if len == 5 && token.get_char(0) == 'f' && token.get_char(1) == 'a'
            && token.get_char(2) == 'l' && token.get_char(3) == 's' && token.get_char(4) == 'e' {
            assert(token@ =~= seq!['f', 'a', 'l', 's', 'e']);
            Some(false)
        } else {
            assert(token@ != seq!['t', 'r', 'u', 'e'] && token@ != seq!['f', 'a', 'l', 's', 'e']) by {
                if token@ == seq!['t', 'r', 'u', 'e'] {
                    assert(token@[0] == 't' && token@[1] == 'r' && token@[2] == 'u' && token@[3] == 'e');
                }
                if token@ == seq!['f', 'a', 'l', 's', 'e'] {
                    assert(token@[0] == 'f' && token@[1] == 'a' && token@[2] == 'l' && token@[3] == 's' && token@[4] == 'e');
                }
            }
            None
        }
    }
}

impl FromInput for char {
    open spec fn readable(token: Seq<char>) -> bool {
        token.len() == 1
    }

    open spec fn denotes(token: Seq<char>, value: char) -> bool {
        token == seq![value]
    }

    fn read_from(token: &str) -> (r: Option<char>) {
        if token.unicode_len() == 1 {
            let c = token.get_char(0);
            assert(token@ =~= seq![c]);
            Some(c)
        } else {
            None
        }
    }
}

impl FromInput for String {
    open spec fn readable(token: Seq<char>) -> bool {
        true
    }

    open spec fn denotes(token: Seq<char>, value: String) -> bool {
        value@ == token
    }

    fn read_from(token: &str) -> (r: Option<String>) {
        Some(token.to_owned())
    }
}

impl FromInput for i8 {
    open spec fn readable(token: Seq<char>) -> bool {
        numeral_in_range(token, true, i8::MIN as int, i8::MAX as int) is Some
    }

    open spec fn denotes(token: Seq<char>, value: i8) -> bool {
        numeral_value(token, true) == Some(value as int)
    }

    fn read_from(token: &str) -> (r: Option<i8>) {
        match parse_numeral(token, true) {
            Some((neg, m)) => {
                if neg {
                    if m < i8::MAX as u128 + 1 {
                        Some(-(m as i8))
                    } else if m == i8::MAX as u128 + 1 {
                        Some(i8::MIN)
                    } else {
                        None
                    }
                } else if m <= i8::MAX as u128 {
                    Some(m as i8)
                } else {
                    None
                }
            },
            None => None,
        }
    }
}

impl FromInput for i16 {
    open spec fn readable(token: Seq<char>) -> bool {
        numeral_in_range(token, true, i16::MIN as int, i16::MAX as int) is Some
    }

    open spec fn denotes(token: Seq<char>, value: i16) -> bool {
        numeral_value(token, true) == Some(value as int)
    }

    fn read_from(token: &str) -> (r: Option<i16>) {
        match parse_numeral(token, true) {
            Some((neg, m)) => {
                if neg {
                    if m < i16::MAX as u128 + 1 {
                        Some(-(m as i16))
                    } else if m == i16::MAX as u128 + 1 {
                        Some(i16::MIN)
                    } else {
                        None
                    }
                } else if m <= i16::MAX as u128 {
                    Some(m as i16)
                } else {
                    None
                }
            },
            None => None,
        }
    }
}

impl FromInput for i32 {
    open spec fn readable(token: Seq<char>) -> bool {
        numeral_in_range(token, true, i32::MIN as int, i32::MAX as int) is Some
    }

    open spec fn denotes(token: Seq<char>, value: i32) -> bool {
        numeral_value(token, true) == Some(value as int)
    }

    fn read_from(token: &str) -> (r: Option<i32>) {
        match parse_numeral(token, true) {
            Some((neg, m)) => {
                if neg {
                    if m < i32::MAX as u128 + 1 {
                        Some(-(m as i32))
                    } else if m == i32::MAX as u128 + 1 {
                        Some(i32::MIN)
                    } else {
                        None
                    }
                } else if m <= i32::MAX as u128 {
                    Some(m as i32)
                } else {
                    None
                }
            },
            None => None,
        }
    }
}

impl FromInput for i64 {
    open spec fn readable(token: Seq<char>) -> bool {
        numeral_in_range(token, true, i64::MIN as int, i64::MAX as int) is Some
    }

    open spec fn denotes(token: Seq<char>, value: i64) -> bool {
        numeral_value(token, true) == Some(value as int)
    }

    fn read_from(token: &str) -> (r: Option<i64>) {
        match parse_numeral(token, true) {
            Some((neg, m)) => {
                if neg {
                    if m < i64::MAX as u128 + 1 {
                        Some(-(m as i64))
                    } else if m == i64::MAX as u128 + 1 {
                        Some(i64::MIN)
                    } else {
                        None
                    }
                } else if m <= i64::MAX as u128 {
                    Some(m as i64)
                } else {
                    None
                }
            },
            None => None,
        }
    }
}

impl FromInput for i128 {
    open spec fn readable(token: Seq<char>) -> bool {
        numeral_in_range(token, true, i128::MIN as int, i128::MAX as int) is Some
    }

    open spec fn denotes(token: Seq<char>, value: i128) -> bool {
        numeral_value(token, true) == Some(value as int)
    }

    fn read_from(token: &str) -> (r: Option<i128>) {
        match parse_numeral(token, true) {
            Some((neg, m)) => {
                if neg {
                    if m < i128::MAX as u128 + 1 {
                        Some(-(m as i128))
                    } else if m == i128::MAX as u128 + 1 {
                        Some(i128::MIN)
                    } else {
                        None
                    }
                } else if m <= i128::MAX as u128 {
                    Some(m as i128)
                } else {
                    None
                }
            },
            None => None,
        }
    }
}

impl FromInput for isize {
    open spec fn readable(token: Seq<char>) -> bool {
        numeral_in_range(token, true, isize::MIN as int, isize::MAX as int) is Some
    }

    open spec fn denotes(token: Seq<char>, value: isize) -> bool {
        numeral_value(token, true) == Some(value as int)
    }

    fn read_from(token: &str) -> (r: Option<isize>) {
        match parse_numeral(token, true) {
            Some((neg, m)) => {
                if neg {
                    if m < isize::MAX as u128 + 1 {
                        Some(-(m as isize))
                    } else if m == isize::MAX as u128 + 1 {
                        Some(isize::MIN)
                    } else {
                        None
                    }
                } else if m <= isize::MAX as u128 {
                    Some(m as isize)
                } else {
                    None
                }
            },
            None => None,
        }
    }
}

impl FromInput for u8 {
    open spec fn readable(token: Seq<char>) -> bool {
        numeral_in_range(token, false, u8::MIN as int, u8::MAX as int) is Some
    }

    open spec fn denotes(token: Seq<char>, value: u8) -> bool {
        numeral_value(token, false) == Some(value as int)
    }

    fn read_from(token: &str) -> (r: Option<u8>) {
        match parse_numeral(token, false) {
            Some((neg, m)) => {
                if m <= u8::MAX as u128 && (!neg || m == 0) {
                    Some(m as u8)
                } else {
                    None
                }
            },
            None => None,
        }
    }
}

impl FromInput for u16 {
    open spec fn readable(token: Seq<char>) -> bool {
        numeral_in_range(token, false, u16::MIN as int, u16::MAX as int) is Some
    }

    open spec fn denotes(token: Seq<char>, value: u16) -> bool {
        numeral_value(token, false) == Some(value as int)
    }

    fn read_from(token: &str) -> (r: Option<u16>) {
        match parse_numeral(token, false) {
            Some((neg, m)) => {
                if m <= u16::MAX as u128 && (!neg || m == 0) {
                    Some(m as u16)
                } else {
                    None
                }
            },
            None => None,
        }
    }
}

impl FromInput for u32 {
    open spec fn readable(token: Seq<char>) -> bool {
        numeral_in_range(token, false, u32::MIN as int, u32::MAX as int) is Some
    }

    open spec fn denotes(token: Seq<char>, value: u32) -> bool {
        numeral_value(token, false) == Some(value as int)
    }

    fn read_from(token: &str) -> (r: Option<u32>) {
        match parse_numeral(token, false) {
            Some((neg, m)) => {
                if m <= u32::MAX as u128 && (!neg || m == 0) {
                    Some(m as u32)
                } else {
                    None
                }
            },
            None => None,
        }
    }
}

impl FromInput for u64 {
    open spec fn readable(token: Seq<char>) -> bool {
        numeral_in_range(token, false, u64::MIN as int, u64::MAX as int) is Some
    }

    open spec fn denotes(token: Seq<char>, value: u64) -> bool {
        numeral_value(token, false) == Some(value as int)
    }

    fn read_from(token: &str) -> (r: Option<u64>) {
        match parse_numeral(token, false) {
            Some((neg, m)) => {
                if m <= u64::MAX as u128 && (!neg || m == 0) {
                    Some(m as u64)
                } else {
                    None
                }
            },
            None => None,
        }
    }
}

impl FromInput for u128 {
    open spec fn readable(token: Seq<char>) -> bool {
        numeral_in_range(token, false, u128::MIN as int, u128::MAX as int) is Some
    }

    open spec fn denotes(token: Seq<char>, value: u128) -> bool {
        numeral_value(token, false) == Some(value as int)
    }

    fn read_from(token: &str) -> (r: Option<u128>) {
        match parse_numeral(token, false) {
            Some((neg, m)) => {
                if m <= u128::MAX as u128 && (!neg || m == 0) {
                    Some(m as u128)
                } else {
                    None
                }
            },
            None => None,
        }
    }
}

impl FromInput for usize {
    open spec fn readable(token: Seq<char>) -> bool {
        numeral_in_range(token, false, usize::MIN as int, usize::MAX as int) is Some
    }

    open spec fn denotes(token: Seq<char>, value: usize) -> bool {
        numeral_value(token, false) == Some(value as int)
    }

    fn read_from(token: &str) -> (r: Option<usize>) {
        match parse_numeral(token, false) {
            Some((neg, m)) => {
                if m <= usize::MAX as u128 && (!neg || m == 0) {
                    Some(m as usize)
                } else {
                    None
                }
            },
            None => None,
        }
    }
}

} // verus!
