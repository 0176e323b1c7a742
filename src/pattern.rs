use vstd::prelude::*;
use vstd::string::StringSliceAdditionalSpecFns;
use vstd::utf8::{encode_utf8, is_ascii_chars, is_ascii_chars_encode_utf8};

verus! {

/// One position of a compiled signature.
#[derive(Clone, Copy, Debug, PartialEq, Eq, Structural)]
pub enum Matcher {
    /// Matches exactly this byte.
    Exact(u8),
    /// Matches any byte.
    Wildcard,
}

/// A compiled signature: a non-empty sequence of matchers.
#[derive(Debug, PartialEq, Eq)]
pub struct Pattern {
    matchers: Vec<Matcher>,
}

/// Why a signature text could not be compiled.
#[derive(Clone, Debug, PartialEq, Eq)]
pub enum CompileError {
    /// The text holds no token at all.
    Empty,
    /// The token at `position` (counting tokens from zero) is neither a
    /// wildcard nor a two-digit hex byte; `token` holds its bytes.
    InvalidToken { token: Vec<u8>, position: usize },
}

impl Clone for Pattern {
    fn clone(&self) -> (r: Pattern)
        ensures
            r@ == self@,
    {
        proof {
            use_type_invariant(self);
        }
        let ms = self.matchers.clone();
        assert(ms@ =~= self.matchers@);
        Pattern { matchers: ms }
    }
}

impl View for Pattern {
    type V = Seq<Matcher>;

    closed spec fn view(&self) -> Seq<Matcher> {
        self.matchers@
    }
}

/// ASCII whitespace separates the tokens of a signature.
pub open spec fn is_space(b: u8) -> bool {
    b == 0x20u8 || b == 0x09u8 || b == 0x0Au8 || b == 0x0Bu8 || b == 0x0Cu8 || b == 0x0Du8
}

pub open spec fn is_hex_digit(b: u8) -> bool {
    (0x30u8 <= b && b <= 0x39u8) || (0x41u8 <= b && b <= 0x46u8) || (0x61u8 <= b && b <= 0x66u8)
}

pub open spec fn hex_digit_value(b: u8) -> int {
    if 0x30u8 <= b && b <= 0x39u8 {
        b - 0x30
    } else if 0x41u8 <= b && b <= 0x46u8 {
        b - 0x41 + 10
    } else {
        b - 0x61 + 10
    }
}

/// `*`, `**`, `?` and `??` all stand for "any byte".
pub open spec fn is_wildcard_token(t: Seq<u8>) -> bool {
    t == seq![0x2Au8] || t == seq![0x2Au8, 0x2Au8] || t == seq![0x3Fu8] || t == seq![
        0x3Fu8,
        0x3Fu8,
    ]
}

/// What a single token compiles to, if it is valid.
pub open spec fn token_matcher(t: Seq<u8>) -> Option<Matcher> {
    if is_wildcard_token(t) {
        Some(Matcher::Wildcard)
    } else if t.len() == 2 && is_hex_digit(t[0]) && is_hex_digit(t[1]) {
        Some(Matcher::Exact((hex_digit_value(t[0]) * 16 + hex_digit_value(t[1])) as u8))
    } else {
        None
    }
}

/// Splitting a prefix of the text: the completed tokens, and the token
/// still being read.
pub open spec fn split_state(s: Seq<u8>) -> (Seq<Seq<u8>>, Seq<u8>)
    decreases s.len(),
{
    if s.len() == 0 {
        (seq![], seq![])
    } else {
        let (done, cur) = split_state(s.drop_last());
        if is_space(s.last()) {
            if cur.len() > 0 {
                (done.push(cur), seq![])
            } else {
                (done, seq![])
            }
        } else {
            (done, cur.push(s.last()))
        }
    }
}

pub open spec fn finish_split(st: (Seq<Seq<u8>>, Seq<u8>)) -> Seq<Seq<u8>> {
    if st.1.len() > 0 {
        st.0.push(st.1)
    } else {
        st.0
    }
}

/// The maximal runs of non-whitespace bytes of `s`, in order.
pub open spec fn tokens(s: Seq<u8>) -> Seq<Seq<u8>> {
    finish_split(split_state(s))
}

/// Compiles a token list: the matchers, or the position of the first
/// invalid token.
pub open spec fn parse_tokens(ts: Seq<Seq<u8>>) -> Result<Seq<Matcher>, int>
    decreases ts.len(),
{
    if ts.len() == 0 {
        Ok(seq![])
    } else {
        match parse_tokens(ts.drop_last()) {
            Err(p) => Err(p),
            Ok(ms) => match token_matcher(ts.last()) {
                Some(m) => Ok(ms.push(m)),
                None => Err(ts.len() - 1),
            },
        }
    }
}

proof fn lemma_parse_err_in_range(ts: Seq<Seq<u8>>)
    ensures
        parse_tokens(ts) matches Err(p) ==> 0 <= p < ts.len(),
    decreases ts.len(),
{
    if ts.len() > 0 {
        lemma_parse_err_in_range(ts.drop_last());
    }
}

/// Whether the bytes compile to exactly the matchers `ms`.
pub open spec fn compiles_to(s: Seq<u8>, ms: Seq<Matcher>) -> bool {
    tokens(s).len() > 0 && parse_tokens(tokens(s)) == Ok::<Seq<Matcher>, int>(ms)
}

/// `e` is the error that compiling the bytes reports: `Empty` for text
/// without tokens, else the first invalid token and its position.
pub open spec fn is_compile_error(s: Seq<u8>, e: CompileError) -> bool {
    match e {
        CompileError::Empty => tokens(s).len() == 0,
        CompileError::InvalidToken { token, position } => {
            &&& parse_tokens(tokens(s)) == Err::<Seq<Matcher>, int>(position as int)
            &&& token@ == tokens(s)[position as int]
        },
    }
}

/// The matchers that the bytes compile to, if they compile.
pub open spec fn compiled(s: Seq<u8>) -> Option<Seq<Matcher>> {
    if tokens(s).len() > 0 {
        match parse_tokens(tokens(s)) {
            Ok(ms) => Some(ms),
            Err(_) => None,
        }
    } else {
        None
    }
}

/// A byte of the form `0xFF` stands for a wildcard in plain byte lists.
pub open spec fn matcher_byte(m: Matcher) -> u8 {
    match m {
        Matcher::Exact(b) => b,
        Matcher::Wildcard => 0xFFu8,
    }
}

fn is_space_byte(b: u8) -> (r: bool)
    ensures
        r == is_space(b),
{
    b == 0x20u8 || b == 0x09u8 || b == 0x0Au8 || b == 0x0Bu8 || b == 0x0Cu8 || b == 0x0Du8
}

fn hex_digit(b: u8) -> (r: Option<u8>)
    ensures
        r == (if is_hex_digit(b) {
            Some(hex_digit_value(b) as u8)
        } else {
            None
        }),
        r matches Some(v) ==> v < 16,
{
    if 0x30u8 <= b && b <= 0x39u8 {
        Some(b - 0x30u8)
    } else if 0x41u8 <= b && b <= 0x46u8 {
        Some(b - 0x41u8 + 10)
    } else if 0x61u8 <= b && b <= 0x66u8 {
        Some(b - 0x61u8 + 10)
    } else {
        None
    }
}

/// Compiles the token `s[start..end]`.
fn token_at(s: &[u8], start: usize, end: usize) -> (r: Option<Matcher>)
    requires
        start <= end <= s@.len(),
    ensures
        r == token_matcher(s@.subrange(start as int, end as int)),
{
    let ghost t = s@.subrange(start as int, end as int);
    let len = end - start;
    if len == 1 {
        let c = s[start];
        assert(t =~= seq![c]);
        if c == 0x2Au8 || c == 0x3Fu8 {
            return Some(Matcher::Wildcard);
        }
        assert(!is_wildcard_token(t)) by {
            if t == seq![0x2Au8, 0x2Au8] || t == seq![0x3Fu8, 0x3Fu8] {
                assert(t.len() == 2);
            }
            if t == seq![0x2Au8] {
                assert(t[0] == 0x2Au8);
            }
            if t == seq![0x3Fu8] {
                assert(t[0] == 0x3Fu8);
            }
        }
        None
    } else if len == 2 {
        let c0 = s[start];
        let c1 = s[start + 1];
        assert(t =~= seq![c0, c1]);
        if (c0 == 0x2Au8 && c1 == 0x2Au8) || (c0 == 0x3Fu8 && c1 == 0x3Fu8) {
            return Some(Matcher::Wildcard);
        }
        assert(!is_wildcard_token(t)) by {
            if t == seq![0x2Au8] || t == seq![0x3Fu8] {
                assert(t.len() == 1);
            }
            if t == seq![0x2Au8, 0x2Au8] {
                assert(t[0] == 0x2Au8 && t[1] == 0x2Au8);
            }
            if t == seq![0x3Fu8, 0x3Fu8] {
                assert(t[0] == 0x3Fu8 && t[1] == 0x3Fu8);
            }
        }
        match (hex_digit(c0), hex_digit(c1)) {
            (Some(hi), Some(lo)) => Some(Matcher::Exact(hi * 16 + lo)),
            _ => None,
        }
    } else {
        assert(!is_wildcard_token(t)) by {
            if t == seq![0x2Au8] || t == seq![0x3Fu8] {
                assert(t.len() == 1);
            }
            if t == seq![0x2Au8, 0x2Au8] || t == seq![0x3Fu8, 0x3Fu8] {
                assert(t.len() == 2);
            }
        }
        None
    }
}

impl Pattern {
    /// A compiled pattern is never empty.
    #[verifier::type_invariant]
    spec fn inv(&self) -> bool {
        self.matchers@.len() > 0
    }

    pub open spec fn wf(&self) -> bool {
        self@.len() > 0
    }

    /// Compiles a whitespace-separated signature such as `"48 8B ? ? 90"`.
    /// Tokens are two hex digits (either case) or one of `*`, `**`, `?`, `??`.
    pub fn compile(text: &str) -> (r: Result<Pattern, CompileError>)
        ensures
            match r {
                Ok(p) => p.wf() && compiles_to(text.spec_bytes(), p@),
                Err(CompileError::Empty) => tokens(text.spec_bytes()).len() == 0,
                Err(CompileError::InvalidToken { token, position }) => {
                    &&& parse_tokens(tokens(text.spec_bytes())) == Err::<Seq<Matcher>, int>(
                        position as int,
                    )
                    &&& token@ == tokens(text.spec_bytes())[position as int]
                },
            },
            r is Ok <==> compiled(text.spec_bytes()) is Some,
            r matches Ok(p) ==> compiled(text.spec_bytes()) == Some(p@),
            r matches Err(e) ==> is_compile_error(text.spec_bytes(), e),
    {
        let bytes = text.as_bytes();
        match compile_bytes(bytes) {
            Ok(ms) => Ok(Pattern { matchers: ms }),
            Err(e) => Err(e),
        }
    }

    /// The matchers of the pattern, in order.
    pub fn matchers(&self) -> (r: &Vec<Matcher>)
        ensures
            r@ == self@,
            self.wf(),
    {
        proof {
            use_type_invariant(self);
        }
        &self.matchers
    }

    pub fn len(&self) -> (r: usize)
        ensures
            r == self@.len(),
    {
        self.matchers.len()
    }
}

/// Compiles the bytes of a signature text into its matchers.
pub(crate) fn compile_bytes(s: &[u8]) -> (r: Result<Vec<Matcher>, CompileError>)
    ensures
        match r {
            Ok(ms) => ms@.len() > 0 && compiles_to(s@, ms@),
            Err(CompileError::Empty) => tokens(s@).len() == 0,
            Err(CompileError::InvalidToken { token, position }) => {
                &&& parse_tokens(tokens(s@)) == Err::<Seq<Matcher>, int>(position as int)
                &&& token@ == tokens(s@)[position as int]
            },
        },
        r is Ok <==> (tokens(s@).len() > 0 && parse_tokens(tokens(s@)) is Ok),
{
    let n = s.len();
    let mut ms: Vec<Matcher> = Vec::new();
    // The first invalid token, as (start, end, position).
    let mut bad: Option<(usize, usize, usize)> = None;
    let mut count: usize = 0;
    let mut start: usize = 0;
    let mut i: usize = 0;
    while i < n
        invariant
            n == s@.len(),
            i <= n,
            start <= i,
            count <= start,
            split_state(s@.subrange(0, i as int)).1 =~= s@.subrange(start as int, i as int),
            split_state(s@.subrange(0, i as int)).0.len() == count,
            match parse_tokens(split_state(s@.subrange(0, i as int)).0) {
                Ok(v) => bad is None && ms@ == v,
                Err(p) => bad matches Some(t) && t.2 == p && t.0 <= t.1 <= n
                    && s@.subrange(t.0 as int, t.1 as int) == split_state(
                    s@.subrange(0, i as int),
                ).0[p],
            },
        decreases n - i,
    {
        let ghost pre = s@.subrange(0, i as int);
        let ghost next = s@.subrange(0, i + 1);
        assert(next.drop_last() =~= pre);
        assert(next.last() == s@[i as int]);
        let ghost st = split_state(pre);
        if is_space_byte(s[i]) {
            if start < i {
                let ghost tok = s@.subrange(start as int, i as int);
                assert(split_state(next).0 == st.0.push(tok));
                assert(split_state(next).0.drop_last() =~= st.0);
                if bad.is_none() {
                    match token_at(s, start, i) {
                        Some(m) => {
                            ms.push(m);
                        },
                        None => {
                            bad = Some((start, i, count));
                        },
                    }
                } else {
                    proof { lemma_parse_err_in_range(st.0); }
                }
                count = count + 1;
            }
            start = i + 1;
        } else {
            assert(s@.subrange(start as int, i + 1) =~= s@.subrange(start as int, i as int).push(
                s@[i as int],
            ));
        }
        i = i + 1;
    }
    assert(s@.subrange(0, n as int) =~= s@);
    let ghost st = split_state(s@);
    if start < n {
        let ghost tok = s@.subrange(start as int, n as int);
        assert(tokens(s@) == st.0.push(tok));
        assert(tokens(s@).drop_last() =~= st.0);
        if bad.is_none() {
            match token_at(s, start, n) {
                Some(m) => {
                    ms.push(m);
                },
                None => {
                    bad = Some((start, n, count));
                },
            }
        } else {
            proof { lemma_parse_err_in_range(st.0); }
        }
        count = count + 1;
    }
    match bad {
        Some((b, e, p)) => {
            let token = slice_to_vec(s, b, e);
            Err(CompileError::InvalidToken { token, position: p })
        },
        None => {
            if count == 0 {
                Err(CompileError::Empty)
            } else {
                Ok(ms)
            }
        },
    }
}

fn slice_to_vec(s: &[u8], b: usize, e: usize) -> (r: Vec<u8>)
    requires
        b <= e <= s@.len(),
    ensures
        r@ == s@.subrange(b as int, e as int),
{
    let mut v: Vec<u8> = Vec::new();
    let mut k: usize = b;
    while k < e
        invariant
            b <= k <= e <= s@.len(),
            v@ == s@.subrange(b as int, k as int),
        decreases e - k,
    {
        v.push(s[k]);
        assert(s@.subrange(b as int, k + 1) =~= s@.subrange(b as int, k as int).push(s@[k as int]));
        k = k + 1;
    }
    v
}

/// The upper-case hex digit of a value below 16.
pub open spec fn hex_byte(d: u8) -> u8 {
    if d < 10 {
        (0x30 + d) as u8
    } else {
        (0x37 + d) as u8
    }
}

/// The canonical text of one matcher: two upper-case hex digits, or `?`.
pub open spec fn render_token(m: Matcher) -> Seq<u8> {
    match m {
        Matcher::Exact(b) => seq![hex_byte(b / 16), hex_byte(b % 16)],
        Matcher::Wildcard => seq![0x3Fu8],
    }
}

/// The canonical text of a matcher list: its tokens joined by single spaces.
pub open spec fn render_bytes(ms: Seq<Matcher>) -> Seq<u8>
    decreases ms.len(),
{
    if ms.len() == 0 {
        seq![]
    } else if ms.len() == 1 {
        render_token(ms[0])
    } else {
        render_bytes(ms.drop_last()) + seq![0x20u8] + render_token(ms.last())
    }
}

/// The canonical text as characters.
pub open spec fn render_text(ms: Seq<Matcher>) -> Seq<char> {
    render_bytes(ms).map_values(|b: u8| b as char)
}

/// Relies on `String::push`: the character is appended at the end.
#[verifier::external_body]
fn push_char(s: &mut String, c: char)
    ensures
        final(s)@ == old(s)@.push(c),
{
    s.push(c)
}

fn hex_char(d: u8) -> (r: char)
    requires
        d < 16,
    ensures
        r == hex_byte(d) as char,
{
    if d < 10 {
        (0x30u8 + d) as char
    } else {
        (0x37u8 + d) as char
    }
}

impl Pattern {
    /// The canonical text of the pattern: upper-case hex bytes and `?` for
    /// each wildcard, separated by single spaces.
    pub fn render(&self) -> (r: String)
        ensures
            r@ == render_text(self@),
    {
        let ms = self.matchers();
        let n = ms.len();
        let mut out = String::new();
        let mut k: usize = 0;
        while k < n
            invariant
                n == ms@.len(),
                ms@ == self@,
                k <= n,
                out@ == render_text(ms@.subrange(0, k as int)),
            decreases n - k,
        {
            let ghost prev = ms@.subrange(0, k as int);
            let ghost next = ms@.subrange(0, k + 1);
            assert(next.drop_last() =~= prev);
            if k > 0 {
                push_char(&mut out, ' ');
            }
            match ms[k] {
                Matcher::Exact(b) => {
                    push_char(&mut out, hex_char(b / 16));
                    push_char(&mut out, hex_char(b % 16));
                },
                Matcher::Wildcard => {
                    push_char(&mut out, '?');
                },
            }
            proof {
                if k == 0 {
                    assert(render_bytes(next) == render_token(ms@[0]));
                } else {
                    assert(render_bytes(next) == render_bytes(prev) + seq![0x20u8] + render_token(
                        ms@[k as int],
                    ));
                }
                assert(out@ =~= render_text(next));
            }
            k = k + 1;
        }
        assert(ms@.subrange(0, n as int) =~= ms@);
        out
    }
}

proof fn lemma_split_append_word(a: Seq<u8>, t: Seq<u8>)
    requires
        forall|k: int| 0 <= k < t.len() ==> !is_space(#[trigger] t[k]),
    ensures
        split_state(a + t) == (split_state(a).0, split_state(a).1 + t),
    decreases t.len(),
{
    if t.len() == 0 {
        assert(a + t =~= a);
        assert(split_state(a).1 + t =~= split_state(a).1);
    } else {
        let u = t.drop_last();
        lemma_split_append_word(a, u);
        assert((a + t).drop_last() =~= a + u);
        assert((a + t).last() == t.last());
        assert(split_state(a).1 + t =~= (split_state(a).1 + u).push(t.last()));
    }
}

proof fn lemma_render_token_word(m: Matcher)
    ensures
        render_token(m).len() > 0,
        forall|k: int| 0 <= k < render_token(m).len() ==> !is_space(#[trigger] render_token(m)[k]),
        token_matcher(render_token(m)) == Some(m),
{
    match m {
        Matcher::Exact(b) => {
            let t = render_token(m);
            let hi = (b / 16) as u8;
            let lo = (b % 16) as u8;
            assert(hex_digit_value(hex_byte(hi)) == hi);
            assert(hex_digit_value(hex_byte(lo)) == lo);
            assert(t[0] != 0x2Au8 && t[0] != 0x3Fu8);
            assert(!is_wildcard_token(t)) by {
                if t == seq![0x2Au8] || t == seq![0x3Fu8] {
                    assert(t.len() == 1);
                }
                if t == seq![0x2Au8, 0x2Au8] || t == seq![0x3Fu8, 0x3Fu8] {
                    assert(t[0] == seq![0x2Au8, 0x2Au8][0] || t[0] == seq![0x3Fu8, 0x3Fu8][0]);
                }
            }
            assert(hi * 16 + lo == b);
        },
        Matcher::Wildcard => {
            assert(render_token(m) =~= seq![0x3Fu8]);
        },
    }
}

proof fn lemma_tokens_of_render(ms: Seq<Matcher>)
    requires
        ms.len() > 0,
    ensures
        tokens(render_bytes(ms)) == ms.map_values(|m: Matcher| render_token(m)),
        split_state(render_bytes(ms)) == (
            ms.drop_last().map_values(|m: Matcher| render_token(m)),
            render_token(ms.last()),
        ),
    decreases ms.len(),
{
    lemma_render_token_word(ms.last());
    let t = render_token(ms.last());
    if ms.len() == 1 {
        lemma_split_append_word(seq![], t);
        assert(seq![] + t =~= t);
        assert(ms.drop_last().map_values(|m: Matcher| render_token(m)) =~= seq![]);
        assert(split_state(Seq::<u8>::empty()).1 + t =~= t);
    } else {
        let init = ms.drop_last();
        lemma_tokens_of_render(init);
        let r = render_bytes(init);
        let rs = r.push(0x20u8);
        assert(rs.drop_last() =~= r);
        assert(r + seq![0x20u8] =~= rs);
        lemma_split_append_word(rs, t);
        assert(split_state(rs).1 + t =~= t);
        assert(init.map_values(|m: Matcher| render_token(m)) =~= init.drop_last().map_values(
            |m: Matcher| render_token(m),
        ).push(render_token(init.last())));
    }
    assert(ms.map_values(|m: Matcher| render_token(m)) =~= ms.drop_last().map_values(
        |m: Matcher| render_token(m),
    ).push(t));
}

proof fn lemma_parse_rendered_tokens(ms: Seq<Matcher>)
    ensures
        parse_tokens(ms.map_values(|m: Matcher| render_token(m))) == Ok::<Seq<Matcher>, int>(ms),
    decreases ms.len(),
{
    let ts = ms.map_values(|m: Matcher| render_token(m));
    if ms.len() == 0 {
        assert(ms =~= seq![]);
    } else {
        lemma_parse_rendered_tokens(ms.drop_last());
        lemma_render_token_word(ms.last());
        assert(ts.drop_last() =~= ms.drop_last().map_values(|m: Matcher| render_token(m)));
        assert(ms.drop_last().push(ms.last()) =~= ms);
    }
}

/// The canonical text is ASCII, so its bytes are its characters.
pub proof fn lemma_render_text_bytes(ms: Seq<Matcher>)
    ensures
        encode_utf8(render_text(ms)) == render_bytes(ms),
{
    let cs = render_text(ms);
    let bs = render_bytes(ms);
    assert(forall|k: int| 0 <= k < bs.len() ==> (#[trigger] bs[k] as char) as u8 == bs[k]) by {
        assert forall|k: int| 0 <= k < bs.len() implies (#[trigger] bs[k] as char) as u8 == bs[k] by {
            let b = bs[k];
            assert((b as char) as u8 == b);
        }
    }
    assert(is_ascii_chars(cs)) by {
        assert forall|k: int| 0 <= k < cs.len() implies '\0' <= #[trigger] cs[k] <= '\u{7f}' by {
            lemma_render_bytes_ascii(ms, k);
        }
    }
    is_ascii_chars_encode_utf8(cs);
    assert(encode_utf8(cs) =~= bs);
}

proof fn lemma_render_bytes_ascii(ms: Seq<Matcher>, k: int)
    requires
        0 <= k < render_bytes(ms).len(),
    ensures
        render_bytes(ms)[k] < 0x80,
    decreases ms.len(),
{
    if ms.len() > 1 {
        let r = render_bytes(ms.drop_last());
        if k < r.len() {
            lemma_render_bytes_ascii(ms.drop_last(), k);
        }
    }
}

/// Compiling the canonical text of a compiled signature gives back the same
/// matchers, so rendering again gives the same text: compile and render are
/// stable under repetition.
pub proof fn lemma_render_round_trip(s: Seq<u8>, ms: Seq<Matcher>)
    requires
        compiled(s) == Some(ms),
    ensures
        compiled(encode_utf8(render_text(ms))) == Some(ms),
        render_text(ms) == render_text(compiled(encode_utf8(render_text(ms)))->Some_0),
{
    lemma_render_text_bytes(ms);
    lemma_tokens_of_render(ms);
    lemma_parse_rendered_tokens(ms);
}

} // verus!
