//! The DCA wire format, written down as specification functions, together
//! with the verified helpers for decimal numerals that the encoder (size
//! field emission) and decoder (size field parsing) share.

use vstd::prelude::*;

verus! {

/// The fixed archive header literal: the bytes of `DCA` and a line feed.
pub open spec fn spec_header() -> Seq<u8> {
    seq![68u8, 67u8, 65u8, 10u8]
}

/// One archive entry as the decoder sees it: the name line content, the
/// declared size, and the payload bytes that were actually available.
pub ghost struct EntryS {
    pub name: Seq<u8>,
    pub size: u64,
    pub payload: Seq<u8>,
}

impl EntryS {
    /// The payload is complete when it has exactly the declared size.
    pub open spec fn complete(self) -> bool {
        self.payload.len() == self.size
    }
}

/// An ASCII decimal digit.
pub open spec fn is_digit(b: u8) -> bool {
    48 <= b <= 57
}

/// The shortest decimal numeral of `n`, as ASCII digit bytes.
pub open spec fn spec_decimal(n: nat) -> Seq<u8>
    decreases n,
{
    if n < 10 {
        seq![(48 + n) as u8]
    } else {
        spec_decimal(n / 10).push((48 + n % 10) as u8)
    }
}

/// Value of a digits-only numeral, or `None` on an empty numeral or a
/// non-digit byte.  There is no bound: overflow is judged by the caller.
pub open spec fn digits_value(s: Seq<u8>) -> Option<nat>
    decreases s.len(),
{
    if s.len() == 0 {
        None
    } else if !is_digit(s.last()) {
        None
    } else if s.len() == 1 {
        Some((s[0] - 48) as nat)
    } else {
        match digits_value(s.drop_last()) {
            None => None,
            Some(v) => Some(v * 10 + (s.last() - 48) as nat),
        }
    }
}

/// The value that the size line denotes: an optional leading plus sign,
/// then decimal digits, rejected when the value does not fit 64 bits.
/// This is the numeral grammar of Rust's unsigned integer parsing.
pub open spec fn spec_parse_u64(s: Seq<u8>) -> Option<u64> {
    let t = if s.len() > 0 && s[0] == 43 {
        s.drop_first()
    } else {
        s
    };
    match digits_value(t) {
        None => None,
        Some(v) => if v <= u64::MAX {
            Some(v as u64)
        } else {
            None
        },
    }
}

pub proof fn lemma_decimal_digits(n: nat)
    ensures
        spec_decimal(n).len() >= 1,
        forall|i: int| 0 <= i < spec_decimal(n).len() ==> is_digit(#[trigger] spec_decimal(n)[i]),
    decreases n,
{
    if n >= 10 {
        lemma_decimal_digits(n / 10);
    }
}

pub proof fn lemma_decimal_value(n: nat)
    ensures
        digits_value(spec_decimal(n)) == Some(n),
    decreases n,
{
    if n < 10 {
    } else {
        lemma_decimal_value(n / 10);
        lemma_decimal_digits(n / 10);
        let d = spec_decimal(n);
        assert(d.drop_last() =~= spec_decimal(n / 10));
        assert(d.last() == (48 + n % 10) as u8);
        assert((n / 10) * 10 + n % 10 == n) by {
            vstd::arithmetic::div_mod::lemma_fundamental_div_mod(n as int, 10);
        }
    }
}

/// The numeral of `n` denotes `n` under the size-line grammar.
pub proof fn lemma_decimal_parses(n: u64)
    ensures
        spec_parse_u64(spec_decimal(n as nat)) == Some(n),
{
    lemma_decimal_digits(n as nat);
    lemma_decimal_value(n as nat);
    assert(is_digit(spec_decimal(n as nat)[0]));
}

/// If some byte of `s` is not a digit, the numeral denotes nothing.
proof fn lemma_digits_value_none(s: Seq<u8>, i: int)
    requires
        0 <= i < s.len(),
        !is_digit(s[i]),
    ensures
        digits_value(s) is None,
    decreases s.len(),
{
    if s.len() > 0 && is_digit(s.last()) && s.len() > 1 {
        if i < s.len() - 1 {
            assert(s.drop_last()[i] == s[i]);
            lemma_digits_value_none(s.drop_last(), i);
        }
    }
}

/// A digits-only prefix never denotes more than the whole numeral.
proof fn lemma_digits_value_prefix(s: Seq<u8>, k: int)
    requires
        1 <= k <= s.len(),
        digits_value(s) is Some,
    ensures
        digits_value(s.subrange(0, k)) is Some,
        digits_value(s.subrange(0, k))->Some_0 <= digits_value(s)->Some_0,
    decreases s.len() - k,
{
    if k == s.len() {
        assert(s.subrange(0, k) =~= s);
    } else {
        assert(s.len() > 1);
        assert(s.drop_last() =~= s.subrange(0, s.len() - 1));
        lemma_digits_value_prefix(s.drop_last(), k);
        assert(s.drop_last().subrange(0, k) =~= s.subrange(0, k));
    }
}

/// Emits the decimal numeral of `n`, exactly as the wire format's size
/// line carries it.
pub fn u64_to_decimal(n: u64) -> (digits: Vec<u8>)
    ensures
        digits@ == spec_decimal(n as nat),
{
    let mut out: Vec<u8> = Vec::new();
    let mut m: u64 = n;
    while m >= 10
        invariant
            spec_decimal(n as nat) =~= spec_decimal(m as nat) + out@,
        decreases m,
    {
        let d: u8 = (48 + (m % 10)) as u8;
        out.insert(0, d);
        proof {
            assert(spec_decimal(m as nat) =~= spec_decimal((m as nat) / 10).push(
                (48 + (m as nat) % 10) as u8,
            ));
            assert((m / 10) as nat == (m as nat) / 10);
            assert((m % 10) as nat == (m as nat) % 10);
        }
        m = m / 10;
        proof {
            assert(spec_decimal(n as nat) =~= spec_decimal(m as nat) + out@);
        }
    }
    let d: u8 = (48 + m) as u8;
    out.insert(0, d);
    proof {
        assert(spec_decimal(m as nat) =~= seq![(48 + m as nat) as u8]);
        assert(out@ =~= spec_decimal(n as nat));
    }
    out
}

/// Bounds on extending an accumulated numeral value by one digit.
proof fn lemma_digit_step(acc: u64, d: u64)
    requires
        d <= 9,
    ensures
        acc <= (u64::MAX - d) / 10 ==> (acc as int) * 10 + d <= u64::MAX,
        acc > (u64::MAX - d) / 10 ==> (acc as int) * 10 + d > u64::MAX,
{
    let e: int = u64::MAX - d;
    vstd::arithmetic::div_mod::lemma_fundamental_div_mod(e, 10);
    vstd::arithmetic::div_mod::lemma_mod_bound(e, 10);
    if acc <= (u64::MAX - d) / 10 {
        assert((acc as int) * 10 <= (e / 10) * 10) by (nonlinear_arith)
            requires
                acc as int <= e / 10,
        ;
    } else {
        assert((acc as int) * 10 >= (e / 10) * 10 + 10) by (nonlinear_arith)
            requires
                acc as int >= e / 10 + 1,
        ;
    }
}

/// Reads the size line's numeral: an optional plus sign and decimal digits,
/// rejecting anything else and any value that does not fit 64 bits.
pub fn parse_u64(s: &Vec<u8>) -> (r: Option<u64>)
    ensures
        r == spec_parse_u64(s@),
{
    let ghost t: Seq<u8> = if s@.len() > 0 && s@[0] == 43 {
        s@.drop_first()
    } else {
        s@
    };
    let mut i: usize = 0;
    if s.len() > 0 && s[0] == 43 {
        i = 1;
    }
    let ghost start: int = i as int;
    proof {
        assert(t =~= s@.subrange(start, s@.len() as int));
    }
    if i == s.len() {
        return None;
    }
    let mut acc: u64 = 0;
    while i < s.len()
        invariant
            start <= i <= s.len(),
            start < s@.len(),
            start == if s@.len() > 0 && s@[0] == 43 { 1int } else { 0int },
            t == s@.subrange(start, s@.len() as int),
            i > start ==> digits_value(s@.subrange(start, i as int)) == Some(acc as nat),
            i == start ==> acc == 0,
        decreases s.len() - i,
    {
        let b = s[i];
        if b < 48 || b > 57 {
            proof {
                assert(t[i - start] == s@[i as int]);
                lemma_digits_value_none(t, i - start);
                let tt = if s@.len() > 0 && s@[0] == 43 {
                    s@.drop_first()
                } else {
                    s@
                };
                assert(tt == t);
                assert(spec_parse_u64(s@) is None);
            }
            return None;
        }
        let d: u64 = (b - 48) as u64;
        proof {
            lemma_digit_step(acc, d);
            let prefix = s@.subrange(start, i + 1);
            assert(prefix.drop_last() =~= s@.subrange(start, i as int));
            assert(prefix.last() == s@[i as int]);
            if i > start {
                assert(digits_value(prefix) == Some((acc as nat) * 10 + (b - 48) as nat));
            } else {
                assert(prefix.len() == 1);
                assert(digits_value(prefix) == Some((b - 48) as nat));
            }
            assert(digits_value(prefix) == Some(((acc as int) * 10 + d) as nat));
        }
        if acc > (u64::MAX - d) / 10 {
            proof {
                let prefix = s@.subrange(start, i + 1);
                assert(prefix =~= t.subrange(0, i + 1 - start));
                if digits_value(t) is Some {
                    lemma_digits_value_prefix(t, i + 1 - start);
                    assert(digits_value(t)->Some_0 > u64::MAX);
                }
                let tt = if s@.len() > 0 && s@[0] == 43 {
                    s@.drop_first()
                } else {
                    s@
                };
                assert(tt == t);
                assert(spec_parse_u64(s@) is None);
            }
            return None;
        }
        acc = acc * 10 + d;
        i = i + 1;
        proof {
            assert(digits_value(s@.subrange(start, i as int)) == Some(acc as nat));
        }
    }
    Some(acc)
}

/// Index of the first line feed at or after `c`, or `s.len()` if there is
/// none.
pub open spec fn find_nl(s: Seq<u8>, c: int) -> int
    decreases s.len() - c,
{
    if c < 0 || c >= s.len() {
        s.len() as int
    } else if s[c] == 10 {
        c
    } else {
        find_nl(s, c + 1)
    }
}

/// Index one past the delimited line that starts at `c`: just after the
/// line feed, or the end of the stream if the stream ends first.
pub open spec fn line_end(s: Seq<u8>, c: int) -> int {
    if find_nl(s, c) < s.len() {
        find_nl(s, c) + 1
    } else {
        s.len() as int
    }
}

pub proof fn lemma_find_nl_bounds(s: Seq<u8>, c: int)
    requires
        0 <= c <= s.len(),
    ensures
        c <= find_nl(s, c) <= s.len(),
        find_nl(s, c) < s.len() ==> s[find_nl(s, c)] == 10,
        forall|j: int| c <= j < find_nl(s, c) ==> s[j] != 10,
    decreases s.len() - c,
{
    if c < s.len() && s[c] != 10 {
        lemma_find_nl_bounds(s, c + 1);
    }
}

/// Where a line feed is known at `c + k` and none earlier, the scan finds it.
pub proof fn lemma_find_nl_at(s: Seq<u8>, c: int, k: int)
    requires
        0 <= c,
        0 <= k,
        c + k < s.len(),
        forall|j: int| c <= j < c + k ==> s[j] != 10,
        s[c + k] == 10,
    ensures
        find_nl(s, c) == c + k,
    decreases k,
{
    if k > 0 {
        lemma_find_nl_at(s, c + 1, k - 1);
    }
}

/// The end states of the decoder's parse of an archive stream.
pub ghost enum ParseEnd {
    /// Clean end of stream at an entry boundary: the archive is well formed.
    Done,
    /// The stream ended before the four header bytes could be read.
    HeaderEof,
    /// The first four bytes are not the header literal.
    HeaderMismatch,
    /// The size line is missing or does not denote a 64-bit value;
    /// `position` is the byte offset where the size line begins.
    SizeFault { name: Seq<u8>, position: int },
    /// The declared size exceeds the bytes that remain; `entry` holds the
    /// short payload that was available, and the shortfall is detected at
    /// the end of the stream.
    PayloadShort { entry: EntryS },
    /// The stream ended exactly where the footer line feed belongs.
    FooterEof { entry: EntryS },
    /// The byte after the payload, at `position`, is not a line feed.
    FooterMismatch { entry: EntryS, position: int },
}

/// Result of parsing: the entries that were fully framed (payload complete
/// and footer matched), and how the parse ended.
pub ghost struct ParsedS {
    pub frames: Seq<EntryS>,
    pub end: ParseEnd,
}

/// Parses the entry list of stream `s` from byte offset `c`, which must be
/// an entry boundary.  This is the decoder's state machine on bytes:
/// name line, size line, payload of the declared size, footer line feed,
/// then the next entry, until the stream ends cleanly at a boundary.
pub open spec fn spec_parse_entries(s: Seq<u8>, c: int) -> ParsedS
    decreases s.len() - c,
        via spec_parse_entries_decreases
{
    if c < 0 || c >= s.len() {
        ParsedS { frames: Seq::empty(), end: ParseEnd::Done }
    } else {
        let name_end = line_end(s, c);
        let name = s.subrange(c, name_end - 1);
        if name_end >= s.len() {
            ParsedS {
                frames: Seq::empty(),
                end: ParseEnd::SizeFault { name, position: s.len() as int },
            }
        } else {
            let size_end = line_end(s, name_end);
            let size_str = s.subrange(name_end, size_end - 1);
            match spec_parse_u64(size_str) {
                None => ParsedS {
                    frames: Seq::empty(),
                    end: ParseEnd::SizeFault { name, position: name_end },
                },
                Some(size) => {
                    if size > s.len() - size_end {
                        let entry = EntryS {
                            name,
                            size,
                            payload: s.subrange(size_end, s.len() as int),
                        };
                        ParsedS { frames: Seq::empty(), end: ParseEnd::PayloadShort { entry } }
                    } else {
                        let entry = EntryS {
                            name,
                            size,
                            payload: s.subrange(size_end, size_end + size),
                        };
                        let footer_pos = size_end + size;
                        if footer_pos >= s.len() {
                            ParsedS { frames: Seq::empty(), end: ParseEnd::FooterEof { entry } }
                        } else if s[footer_pos] != 10 {
                            ParsedS {
                                frames: Seq::empty(),
                                end: ParseEnd::FooterMismatch { entry, position: footer_pos },
                            }
                        } else {
                            let rest = spec_parse_entries(s, footer_pos + 1);
                            ParsedS { frames: seq![entry] + rest.frames, end: rest.end }
                        }
                    }
                },
            }
        }
    }
}

#[via_fn]
proof fn spec_parse_entries_decreases(s: Seq<u8>, c: int) {
    if 0 <= c < s.len() {
        lemma_find_nl_bounds(s, c);
        let name_end = line_end(s, c);
        if name_end < s.len() {
            lemma_find_nl_bounds(s, name_end);
        }
    }
}

/// Parses a whole archive stream: the header literal, then the entries.
pub open spec fn spec_parse(s: Seq<u8>) -> ParsedS {
    if s.len() < 4 {
        ParsedS { frames: Seq::empty(), end: ParseEnd::HeaderEof }
    } else if s.subrange(0, 4) != spec_header() {
        ParsedS { frames: Seq::empty(), end: ParseEnd::HeaderMismatch }
    } else {
        spec_parse_entries(s, 4)
    }
}

/// The entries a content handler that drains every payload receives with a
/// complete payload: the fully framed ones, and, when only the footer was
/// missing or wrong, the final entry whose payload still arrived whole.
pub open spec fn spec_extracted(p: ParsedS) -> Seq<EntryS> {
    match p.end {
        ParseEnd::FooterEof { entry } => p.frames.push(entry),
        ParseEnd::FooterMismatch { entry, .. } => p.frames.push(entry),
        _ => p.frames,
    }
}

/// The entries the decoder hands to its content handler, in order: every
/// fully framed one, and the final partly framed one when the stream ends
/// inside an entry's payload or at its footer.
pub open spec fn spec_delivered(p: ParsedS) -> Seq<EntryS> {
    match p.end {
        ParseEnd::PayloadShort { entry } => p.frames.push(entry),
        ParseEnd::FooterEof { entry } => p.frames.push(entry),
        ParseEnd::FooterMismatch { entry, .. } => p.frames.push(entry),
        _ => p.frames,
    }
}

/// `xs` is an in-order selection of `ys`.
pub open spec fn is_subsequence<A>(xs: Seq<A>, ys: Seq<A>) -> bool
    decreases ys.len(),
{
    if xs.len() == 0 {
        true
    } else if ys.len() == 0 {
        false
    } else if xs[0] == ys[0] {
        is_subsequence(xs.drop_first(), ys.drop_first())
    } else {
        is_subsequence(xs, ys.drop_first())
    }
}

/// A selection of `ys` is also a selection of `ys` with one more element.
pub proof fn lemma_subsequence_extend<A>(xs: Seq<A>, ys: Seq<A>, x: A)
    requires
        is_subsequence(xs, ys),
    ensures
        is_subsequence(xs, ys.push(x)),
    decreases ys.len(),
{
    if xs.len() == 0 {
    } else {
        assert(ys.len() > 0);
        assert(ys.push(x).drop_first() =~= ys.drop_first().push(x));
        if xs[0] == ys[0] {
            lemma_subsequence_extend(xs.drop_first(), ys.drop_first(), x);
        } else {
            lemma_subsequence_extend(xs, ys.drop_first(), x);
        }
        assert(ys.push(x)[0] == ys[0]);
    }
}

/// Appending the same element keeps a selection a selection.
pub proof fn lemma_subsequence_push<A>(xs: Seq<A>, ys: Seq<A>, x: A)
    requires
        is_subsequence(xs, ys),
    ensures
        is_subsequence(xs.push(x), ys.push(x)),
    decreases ys.len(),
{
    let xp = xs.push(x);
    let yp = ys.push(x);
    if ys.len() == 0 {
        assert(xs.len() == 0);
        assert(xp =~= seq![x]);
        assert(yp =~= seq![x]);
        assert(xp[0] == yp[0]);
        assert(xp.drop_first() =~= Seq::<A>::empty());
        assert(is_subsequence(xp.drop_first(), yp.drop_first()));
        assert(is_subsequence(xp, yp));
    } else {
        assert(yp.drop_first() =~= ys.drop_first().push(x));
        assert(yp[0] == ys[0]);
        if xs.len() == 0 {
            assert(xp =~= seq![x]);
            if x == ys[0] {
                assert(xp.drop_first() =~= Seq::<A>::empty());
                assert(is_subsequence(xp.drop_first(), yp.drop_first()));
                assert(is_subsequence(xp, yp));
            } else {
                lemma_subsequence_push(xs, ys.drop_first(), x);
                assert(is_subsequence(xp, yp.drop_first()));
                assert(xp[0] != yp[0]);
                assert(is_subsequence(xp, yp));
            }
        } else {
            assert(xp[0] == xs[0]);
            assert(xp.drop_first() =~= xs.drop_first().push(x));
            if xs[0] == ys[0] {
                lemma_subsequence_push(xs.drop_first(), ys.drop_first(), x);
                assert(is_subsequence(xp.drop_first(), yp.drop_first()));
                assert(is_subsequence(xp, yp));
            } else {
                lemma_subsequence_push(xs, ys.drop_first(), x);
                assert(is_subsequence(xp, yp.drop_first()));
                assert(xp[0] != yp[0]);
                assert(is_subsequence(xp, yp));
            }
        }
    }
}

/// A selection of `ys` is a selection of any extension of `ys`.
pub proof fn lemma_subsequence_concat<A>(xs: Seq<A>, ys: Seq<A>, zs: Seq<A>)
    requires
        is_subsequence(xs, ys),
    ensures
        is_subsequence(xs, ys + zs),
    decreases zs.len(),
{
    if zs.len() == 0 {
        assert(ys + zs =~= ys);
    } else {
        lemma_subsequence_concat(xs, ys, zs.drop_last());
        lemma_subsequence_extend(xs, ys + zs.drop_last(), zs.last());
        assert(ys + zs =~= (ys + zs.drop_last()).push(zs.last()));
    }
}

/// The bytes of one encoded entry: name line, size line, payload, footer.
pub open spec fn spec_frame(name: Seq<u8>, payload: Seq<u8>) -> Seq<u8> {
    name + seq![10u8] + spec_decimal(payload.len() as nat) + seq![10u8] + payload + seq![10u8]
}

/// The bytes of an encoded entry list.
pub open spec fn spec_encode_entries(entries: Seq<EntryS>) -> Seq<u8>
    decreases entries.len(),
{
    if entries.len() == 0 {
        Seq::empty()
    } else {
        spec_frame(entries[0].name, entries[0].payload) + spec_encode_entries(
            entries.drop_first(),
        )
    }
}

/// The bytes of a whole encoded archive.
pub open spec fn spec_encode(entries: Seq<EntryS>) -> Seq<u8> {
    spec_header() + spec_encode_entries(entries)
}

/// An entry fit for encoding: its name fits the framing and its payload is
/// exactly its declared size.
pub open spec fn encodable(e: EntryS) -> bool {
    crate::error::valid_name(e.name) && e.complete()
}

proof fn lemma_parse_encoded_entries(s: Seq<u8>, c: int, entries: Seq<EntryS>)
    requires
        0 <= c <= s.len(),
        s.subrange(c, s.len() as int) == spec_encode_entries(entries),
        forall|i: int| 0 <= i < entries.len() ==> encodable(#[trigger] entries[i]),
    ensures
        spec_parse_entries(s, c).frames == entries,
        spec_parse_entries(s, c).end == ParseEnd::Done,
    decreases entries.len(),
{
    let suf = s.subrange(c, s.len() as int);
    if entries.len() == 0 {
        assert(suf.len() == 0);
        assert(spec_parse_entries(s, c).frames =~= entries);
    } else {
        let e = entries[0];
        assert(encodable(e));
        let name = e.name;
        let payload = e.payload;
        let d = spec_decimal(payload.len() as nat);
        let f = spec_frame(name, payload);
        let r = spec_encode_entries(entries.drop_first());
        assert(suf == f + r);
        lemma_decimal_digits(payload.len() as nat);
        // Peel the frame's concatenation one level at a time.
        let g1 = name + seq![10u8];
        let g2 = g1 + d;
        let g3 = g2 + seq![10u8];
        let g4 = g3 + payload;
        assert(f == g4 + seq![10u8]);
        assert(f.len() == name.len() + d.len() + payload.len() + 3);
        // Byte layout of the first frame inside `s`.
        assert forall|i: int| 0 <= i < f.len() implies s[c + i] == f[i] by {
            assert(suf[i] == s[c + i]);
            assert((f + r)[i] == f[i]);
        }
        // The name line.
        let c1 = c + name.len() + 1;
        assert forall|j: int| 0 <= j < name.len() implies s[c + j] == name[j] by {
            assert(f[j] == g4[j]);
            assert(g4[j] == g3[j]);
            assert(g3[j] == g2[j]);
            assert(g2[j] == g1[j]);
            assert(g1[j] == name[j]);
        }
        assert forall|j: int| c <= j < c1 - 1 implies s[j] != 10 by {
            assert(s[j] == name[j - c]);
            assert(!crate::error::forbidden_byte(name[j - c]));
        }
        assert(g1[name.len() as int] == 10);
        assert(f[name.len() as int] == 10);
        assert(s[c1 - 1] == 10);
        lemma_find_nl_at(s, c, name.len() as int);
        assert(line_end(s, c) == c1);
        assert(s.subrange(c, c1 - 1) =~= name);
        assert(c1 < s.len());
        // The size line.
        let c2 = c1 + d.len() + 1;
        assert forall|j: int| 0 <= j < d.len() implies s[c1 + j] == d[j] by {
            let i = name.len() + 1 + j;
            assert(f[i] == g4[i]);
            assert(g4[i] == g3[i]);
            assert(g3[i] == g2[i]);
            assert(g2[i] == d[j]);
        }
        assert forall|j: int| c1 <= j < c2 - 1 implies s[j] != 10 by {
            assert(s[j] == d[j - c1]);
            assert(is_digit(d[j - c1]));
        }
        assert(g3[(g2.len()) as int] == 10);
        assert(f[(name.len() + 1 + d.len()) as int] == 10);
        assert(s[c2 - 1] == 10);
        lemma_find_nl_at(s, c1, d.len() as int);
        assert(line_end(s, c1) == c2);
        assert(s.subrange(c1, c2 - 1) =~= d);
        lemma_decimal_parses(e.size);
        assert(payload.len() == e.size);
        assert(spec_parse_u64(d) == Some(e.size));
        // The payload and the footer.
        let c3 = c2 + payload.len();
        assert(c3 < s.len());
        assert(e.size <= s.len() - c2);
        assert forall|j: int| 0 <= j < payload.len() implies s[c2 + j] == payload[j] by {
            let i = g3.len() + j;
            assert(f[i] == g4[i]);
            assert(g4[i] == payload[j]);
        }
        assert(s.subrange(c2, c2 + e.size) =~= payload);
        assert(f[(f.len() - 1) as int] == 10);
        assert(s[c3] == 10);
        // The rest of the stream is the encoding of the remaining entries.
        assert forall|i: int| 0 <= i < r.len() implies s[c3 + 1 + i] == r[i] by {
            assert(c3 + 1 - c == f.len());
            assert(suf[f.len() + i] == s[c + f.len() + i]);
            assert((f + r)[f.len() + i] == r[i]);
        }
        assert(s.subrange(c3 + 1, s.len() as int) =~= r);
        assert forall|i: int| 0 <= i < entries.drop_first().len() implies encodable(
            #[trigger] entries.drop_first()[i],
        ) by {
            assert(entries.drop_first()[i] == entries[i + 1]);
        }
        lemma_parse_encoded_entries(s, c3 + 1, entries.drop_first());
        let parsed = spec_parse_entries(s, c);
        let entry = EntryS { name: s.subrange(c, c1 - 1), size: e.size, payload: s.subrange(c2, c2 + e.size) };
        assert(entry == e);
        assert(parsed.frames == seq![entry] + spec_parse_entries(s, c3 + 1).frames);
        assert(parsed.frames =~= entries);
        assert(parsed.end == ParseEnd::Done);
    }
}

/// Encoding no entries emits the header literal alone, and decoding the
/// header literal alone yields no entries and a clean end.
pub proof fn lemma_empty_archive()
    ensures
        spec_encode(Seq::empty()) == spec_header(),
        spec_parse(spec_header()).frames == Seq::<EntryS>::empty(),
        spec_parse(spec_header()).end is Done,
{
    assert(spec_encode(Seq::empty()) =~= spec_header());
    lemma_round_trip(Seq::empty());
}

/// Decoding an encoded archive recovers exactly the entries that were
/// encoded, for any list of entries whose names are free of the line feed
/// and path separator and whose payloads match their sizes.
pub proof fn lemma_round_trip(entries: Seq<EntryS>)
    requires
        forall|i: int| 0 <= i < entries.len() ==> encodable(#[trigger] entries[i]),
    ensures
        spec_parse(spec_encode(entries)).frames == entries,
        spec_parse(spec_encode(entries)).end == ParseEnd::Done,
{
    let s = spec_encode(entries);
    assert(s.subrange(0, 4) =~= spec_header());
    assert(s.subrange(4, s.len() as int) =~= spec_encode_entries(entries));
    lemma_parse_encoded_entries(s, 4, entries);
}

} // verus!
