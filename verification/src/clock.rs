//! Entropy-driven clock: the radio is the time source.
//!
//! The polling thread lives outside the library; what it decides on each
//! tick — radio status changes, entropy deposits, when a dream is triggered
//! and with which entropy — is the step function `ClockState::tick`.
use vstd::prelude::*;
use vstd::utf8::encode_utf8;

use crate::casting::{civil_date, civil_from_days};
use crate::text::{
    padded_decimal, push_char, push_padded, chars_of, parse_unsigned, parse_unsigned_spec, slice_range, strip_prefix, strip_prefix_spec,
    string_from_chars, trim_chars, trim_end_char, trim_end_matches_char, trim_spec,
    char_whitespace, lemma_trim_end_skips_whitespace, lemma_trim_start_skips_whitespace, trim_end_spec,
    trim_start_spec,
};

verus! {

/// Configuration for the clock.
#[derive(Debug, Clone)]
pub struct ClockConfig {
    pub radio_host: String,
    pub radio_port: u16,
    pub tick_secs: u64,
    pub dream_threshold_bytes: usize,
}

/// Entropy accumulator that keeps at most `cap` of the most recent bytes.
#[derive(Debug, Clone)]
pub struct EntropyReservoir {
    buf: Vec<u8>,
    cap: usize,
}

/// Reservoir contents after depositing `bytes`: the last `cap` bytes of the
/// old contents followed by the deposit.
pub open spec fn deposit_spec(old_buf: Seq<u8>, bytes: Seq<u8>, cap: nat) -> Seq<u8> {
    let all = old_buf + bytes;
    if all.len() > cap {
        all.subrange(all.len() - cap, all.len() as int)
    } else {
        all
    }
}

impl EntropyReservoir {
    /// The bytes held, oldest first.
    pub closed spec fn contents(&self) -> Seq<u8> {
        self.buf@
    }

    pub closed spec fn capacity(&self) -> nat {
        self.cap as nat
    }

    /// Well-formed: never more than `cap` bytes.
    pub closed spec fn wf(&self) -> bool {
        self.buf.len() <= self.cap
    }

    pub fn new(cap: usize) -> (r: Self)
        ensures
            r.wf(),
            r.contents() == Seq::<u8>::empty(),
            r.capacity() == cap,
    {
        EntropyReservoir { buf: Vec::new(), cap }
    }

    /// Append bytes, dropping the oldest beyond the capacity.
    pub fn deposit(&mut self, bytes: &[u8])
        requires
            old(self).wf(),
            old(self).contents().len() + bytes@.len() <= usize::MAX,
        ensures
            final(self).wf(),
            final(self).capacity() == old(self).capacity(),
            final(self).contents() == deposit_spec(
                old(self).contents(),
                bytes@,
                old(self).capacity(),
            ),
    {
        let mut all: Vec<u8> = Vec::new();
        let mut i: usize = 0;
        while i < self.buf.len()
            invariant
                i <= self.buf.len(),
                all@ == self.buf@.subrange(0, i as int),
            decreases self.buf.len() - i,
        {
            all.push(self.buf[i]);
            assert(all@ =~= self.buf@.subrange(0, i + 1));
            i = i + 1;
        }
        let mut j: usize = 0;
        while j < bytes.len()
            invariant
                j <= bytes.len(),
                i == self.buf.len(),
                all@ == self.buf@ + bytes@.subrange(0, j as int),
            decreases bytes.len() - j,
        {
            all.push(bytes[j]);
            assert(all@ =~= self.buf@ + bytes@.subrange(0, j + 1));
            j = j + 1;
        }
        assert(bytes@.subrange(0, bytes@.len() as int) =~= bytes@);
        if all.len() > self.cap {
            let start = all.len() - self.cap;
            let mut kept: Vec<u8> = Vec::new();
            let mut k: usize = start;
            while k < all.len()
                invariant
                    start <= k <= all.len(),
                    kept@ == all@.subrange(start as int, k as int),
                decreases all.len() - k,
            {
                kept.push(all[k]);
                assert(kept@ =~= all@.subrange(start as int, k + 1));
                k = k + 1;
            }
            self.buf = kept;
        } else {
            self.buf = all;
        }
    }

    /// Remove and return up to `n` of the oldest bytes.
    pub fn consume(&mut self, n: usize) -> (r: Vec<u8>)
        requires
            old(self).wf(),
        ensures
            final(self).wf(),
            final(self).capacity() == old(self).capacity(),
            r@.len() == (if n < old(self).contents().len() { n as nat } else { old(self).contents().len() }),
            r@ + final(self).contents() == old(self).contents(),
    {
        let drain_count = if n < self.buf.len() { n } else { self.buf.len() };
        let mut taken: Vec<u8> = Vec::new();
        let mut rest: Vec<u8> = Vec::new();
        let mut i: usize = 0;
        while i < self.buf.len()
            invariant
                drain_count <= self.buf.len(),
                i <= self.buf.len(),
                i <= drain_count ==> taken@ == self.buf@.subrange(0, i as int) && rest@.len()
                    == 0,
                i > drain_count ==> taken@ == self.buf@.subrange(0, drain_count as int) && rest@
                    == self.buf@.subrange(drain_count as int, i as int),
            decreases self.buf.len() - i,
        {
            if i < drain_count {
                taken.push(self.buf[i]);
                assert(taken@ =~= self.buf@.subrange(0, i + 1));
            } else {
                rest.push(self.buf[i]);
                assert(rest@ =~= self.buf@.subrange(drain_count as int, i + 1));
            }
            i = i + 1;
        }
        if drain_count == self.buf.len() {
            assert(rest@ =~= self.buf@.subrange(drain_count as int, self.buf@.len() as int));
        }
        assert(taken@ + rest@ =~= self.buf@);
        self.buf = rest;
        taken
    }

    pub fn len(&self) -> (r: usize)
        ensures
            r == self.contents().len(),
    {
        self.buf.len()
    }
}

/// Depositing more than the capacity keeps exactly the most recent `cap` bytes.
pub proof fn reservoir_keeps_most_recent(old_buf: Seq<u8>, bytes: Seq<u8>, cap: nat)
    requires
        old_buf.len() <= cap,
    ensures
        deposit_spec(old_buf, bytes, cap).len() <= cap,
        deposit_spec(old_buf, bytes, cap).len() == (if old_buf.len() + bytes.len() > cap {
            cap
        } else {
            old_buf.len() + bytes.len()
        }),
        bytes.len() >= cap ==> deposit_spec(old_buf, bytes, cap) == bytes.subrange(
            bytes.len() - cap,
            bytes.len() as int,
        ),
{
    if bytes.len() >= cap {
        let all = old_buf + bytes;
        assert(all.subrange(all.len() - cap, all.len() as int) =~= bytes.subrange(
            bytes.len() - cap,
            bytes.len() as int,
        ));
    }
}

// ---------------------------------------------------------------------------
// Hex decoding
// ---------------------------------------------------------------------------

pub open spec fn is_hex_byte(b: u8) -> bool {
    (48 <= b <= 57) || (97 <= b <= 102) || (65 <= b <= 70)
}

pub open spec fn hex_value(b: u8) -> u8 {
    if 48 <= b <= 57 {
        (b - 48) as u8
    } else if 97 <= b <= 102 {
        (b - 97 + 10) as u8
    } else {
        (b - 65 + 10) as u8
    }
}

/// Bytes encoded by a hex byte string; empty when its length is odd or a byte
/// is not a hex digit.
pub open spec fn hex_bytes_decode(b: Seq<u8>) -> Seq<u8> {
    if b.len() % 2 != 0 || !(forall|i: int| 0 <= i < b.len() ==> is_hex_byte(#[trigger] b[i])) {
        Seq::empty()
    } else {
        Seq::new(b.len() / 2, |i: int| (hex_value(b[2 * i]) * 16 + hex_value(b[2 * i + 1])) as u8)
    }
}

/// Hex decoding of a string: its UTF-8 bytes, trimmed of whitespace.
pub open spec fn hex_decode_spec(s: Seq<char>) -> Seq<u8> {
    hex_bytes_decode(encode_utf8(trim_spec(s)))
}

/// The hex digit of a nibble, lowercase or uppercase.
pub open spec fn hex_digit_char(n: int, upper: bool) -> char {
    if n < 10 {
        (48 + n) as char
    } else if upper {
        (55 + n) as char
    } else {
        (87 + n) as char
    }
}

/// A byte string written as two hex digits per byte, high nibble first, in
/// one case.
pub open spec fn hex_text(b: Seq<u8>, upper: bool) -> Seq<char> {
    Seq::new(
        2 * b.len(),
        |i: int|
            if i % 2 == 0 {
                hex_digit_char((b[i / 2] / 16) as int, upper)
            } else {
                hex_digit_char((b[i / 2] % 16) as int, upper)
            },
    )
}

proof fn lemma_hex_digit(n: int, upper: bool)
    requires
        0 <= n < 16,
    ensures
        !char_whitespace(hex_digit_char(n, upper)),
        '\0' <= hex_digit_char(n, upper) <= '\u{7f}',
        is_hex_byte(hex_digit_char(n, upper) as u8),
        hex_value(hex_digit_char(n, upper) as u8) == n,
{
}

proof fn lemma_hex_text_char(b: Seq<u8>, upper: bool, i: int)
    requires
        0 <= i < 2 * b.len(),
    ensures
        !char_whitespace(hex_text(b, upper)[i]),
        '\0' <= hex_text(b, upper)[i] <= '\u{7f}',
        is_hex_byte(hex_text(b, upper)[i] as u8),
        hex_value(hex_text(b, upper)[i] as u8) == if i % 2 == 0 {
            (b[i / 2] / 16) as int
        } else {
            (b[i / 2] % 16) as int
        },
{
    let n: int = if i % 2 == 0 { (b[i / 2] / 16) as int } else { (b[i / 2] % 16) as int };
    lemma_hex_digit(n, upper);
}

proof fn lemma_hex_text_trimmed(b: Seq<u8>, upper: bool, pre: Seq<char>, post: Seq<char>)
    requires
        forall|i: int| 0 <= i < pre.len() ==> char_whitespace(#[trigger] pre[i]),
        forall|i: int| 0 <= i < post.len() ==> char_whitespace(#[trigger] post[i]),
    ensures
        trim_spec(pre + hex_text(b, upper) + post) == hex_text(b, upper),
{
    let h = hex_text(b, upper);
    lemma_trim_start_skips_whitespace(pre, h + post);
    assert(pre + h + post =~= pre + (h + post));
    if h.len() > 0 {
        lemma_hex_text_char(b, upper, 0);
        lemma_hex_text_char(b, upper, h.len() - 1);
        assert((h + post)[0] == h[0]);
        assert(trim_start_spec(h + post) == h + post);
        lemma_trim_end_skips_whitespace(h, post);
        assert(trim_end_spec(h) == h);
    } else {
        assert(h + post =~= post);
        lemma_trim_start_skips_whitespace(post, h);
        assert(post + h =~= post);
    }
}

proof fn lemma_hex_text_decodes(b: Seq<u8>, upper: bool)
    ensures
        hex_bytes_decode(encode_utf8(hex_text(b, upper))) == b,
{
    let h = hex_text(b, upper);
    assert forall|i: int| 0 <= i < h.len() implies '\0' <= #[trigger] h[i] <= '\u{7f}' by {
        lemma_hex_text_char(b, upper, i);
    }
    assert(vstd::utf8::is_ascii_chars(h));
    vstd::utf8::is_ascii_chars_encode_utf8(h);
    let e = encode_utf8(h);
    assert forall|i: int| 0 <= i < e.len() implies is_hex_byte(#[trigger] e[i]) by {
        lemma_hex_text_char(b, upper, i);
        assert(e[i] == h[i] as u8);
    }
    assert forall|k: int| 0 <= k < b.len() implies (hex_value(e[2 * k]) * 16 + hex_value(e[2 * k + 1])) as u8
        == #[trigger] b[k] by {
        lemma_hex_text_char(b, upper, 2 * k);
        lemma_hex_text_char(b, upper, 2 * k + 1);
        assert(e[2 * k] == h[2 * k] as u8);
        assert(e[2 * k + 1] == h[2 * k + 1] as u8);
        assert((2 * k) / 2 == k);
        assert((2 * k + 1) / 2 == k);
        let x = b[k];
        assert((x / 16) * 16 + x % 16 == x) by (nonlinear_arith);
    }
    assert(hex_bytes_decode(e) =~= b);
}

/// Hex decoding reads back what hex encoding wrote: a byte string written
/// as hex digits, in either case and with whitespace before and after,
/// decodes to the same bytes.
pub proof fn hex_decode_reads_back(b: Seq<u8>, upper: bool, pre: Seq<char>, post: Seq<char>)
    requires
        forall|i: int| 0 <= i < pre.len() ==> char_whitespace(#[trigger] pre[i]),
        forall|i: int| 0 <= i < post.len() ==> char_whitespace(#[trigger] post[i]),
    ensures
        hex_decode_spec(pre + hex_text(b, upper) + post) == b,
{
    lemma_hex_text_trimmed(b, upper, pre, post);
    lemma_hex_text_decodes(b, upper);
}

/// Hex decoding is all or nothing: it gives either no bytes or one byte for
/// each two bytes of the trimmed text, never a partial prefix.
pub proof fn hex_decode_all_or_nothing(s: Seq<char>)
    ensures
        hex_decode_spec(s).len() == 0 || 2 * hex_decode_spec(s).len() == encode_utf8(trim_spec(s)).len(),
{
}

fn hex_nibble(b: u8) -> (r: Option<u8>)
    ensures
        r == (if is_hex_byte(b) { Some(hex_value(b)) } else { None::<u8> }),
{
    if 48 <= b && b <= 57 {
        Some(b - 48)
    } else if 97 <= b && b <= 102 {
        Some(b - 97 + 10)
    } else if 65 <= b && b <= 70 {
        Some(b - 65 + 10)
    } else {
        None
    }
}

/// The unsigned integer that `serde_json` reads under `key` in the JSON
/// object `json` (`from_str` into a `Value`, then `get` and `as_u64`), if
/// the text parses, has that key, and holds a `u64` there.
pub uninterp spec fn json_u64_field(json: Seq<char>, key: Seq<char>) -> Option<u64>;

/// The string that `serde_json` reads under `key` in the JSON object `json`
/// (`from_str` into a `Value`, then `get` and `as_str`), if there is one.
pub uninterp spec fn json_str_field(json: Seq<char>, key: Seq<char>) -> Option<Seq<char>>;

/// `serde_json::from_str` into a `Value`, then `get(key)` and `as_u64`.  The
/// result is named by `json_u64_field`; JSON's grammar is not restated.
#[verifier::external_body]
fn read_u64_field(json: &str, key: &str) -> (r: Option<u64>)
    ensures
        r == json_u64_field(json@, key@),
{
    let v: serde_json::Value = serde_json::from_str(json).ok()?;
    v.get(key)?.as_u64()
}

/// `serde_json::from_str` into a `Value`, then `get(key)` and `as_str`.  The
/// result is named by `json_str_field`.
#[verifier::external_body]
fn read_str_field(json: &str, key: &str) -> (r: Option<String>)
    ensures
        r is Some <==> json_str_field(json@, key@) is Some,
        r is Some ==> json_str_field(json@, key@) == Some(r->0@),
{
    let v: serde_json::Value = serde_json::from_str(json).ok()?;
    v.get(key)?.as_str().map(|h| h.to_string())
}

/// The epoch of a radio status reply `{"epoch": N, ...}`, read from the
/// trimmed body.
pub fn parse_epoch(json_body: &str) -> (r: Option<u64>)
    ensures
        r == json_u64_field(trim_spec(json_body@), "epoch"@),
{
    let chars = chars_of(json_body);
    let t = string_from_chars(trim_chars(chars.as_slice()).as_slice());
    read_u64_field(t.as_str(), "epoch")
}

/// The entropy bytes of a radio reply `{"entropy_hex": "deadbeef", ...}`:
/// the hex string under `entropy_hex` of the trimmed body, decoded; empty
/// where the body does not parse, has no such string, or it is no hex.
pub fn parse_entropy_hex(json_body: &str) -> (r: Vec<u8>)
    ensures
        r@ == (match json_str_field(trim_spec(json_body@), "entropy_hex"@) {
            Some(h) => hex_decode_spec(h),
            None => Seq::<u8>::empty(),
        }),
{
    let chars = chars_of(json_body);
    let t = string_from_chars(trim_chars(chars.as_slice()).as_slice());
    match read_str_field(t.as_str(), "entropy_hex") {
        Some(h) => hex_decode(h.as_str()),
        None => Vec::new(),
    }
}

/// Decode a hex string to bytes.  Returns an empty vec on invalid input.
pub fn hex_decode(hex: &str) -> (r: Vec<u8>)
    ensures
        r@ == hex_decode_spec(hex@),
{
    let chars = chars_of(hex);
    let trimmed = trim_chars(chars.as_slice());
    let s = string_from_chars(trimmed.as_slice());
    let bytes = s.as_str().as_bytes();
    let ghost b = bytes@;
    assert(b == encode_utf8(trim_spec(hex@)));
    if bytes.len() % 2 != 0 {
        return Vec::new();
    }
    let mut out: Vec<u8> = Vec::new();
    let mut i: usize = 0;
    while i < bytes.len() / 2
        invariant
            b == bytes@,
            b == encode_utf8(trim_spec(hex@)),
            b.len() % 2 == 0,
            i <= b.len() / 2,
            forall|k: int| 0 <= k < 2 * i ==> is_hex_byte(#[trigger] b[k]),
            out@ =~= Seq::new(
                i as nat,
                |k: int| (hex_value(b[2 * k]) * 16 + hex_value(b[2 * k + 1])) as u8,
            ),
        decreases bytes.len() / 2 - i,
    {
        let hi = hex_nibble(bytes[2 * i]);
        let lo = hex_nibble(bytes[2 * i + 1]);
        if hi.is_none() || lo.is_none() {
            proof {
                let k = if hi.is_none() { 2 * i as int } else { 2 * i + 1 };
                assert(!is_hex_byte(b[k]));
            }
            return Vec::new();
        }
        let h = hi.unwrap();
        let l = lo.unwrap();
        assert(h < 16 && l < 16);
        let v: u8 = h * 16 + l;
        out.push(v);
        i = i + 1;
    }
    out
}

// ---------------------------------------------------------------------------
// Radio endpoint
// ---------------------------------------------------------------------------

/// Index of the last `:` in `s`, if any.
pub open spec fn last_colon(s: Seq<char>) -> Option<int>
    decreases s.len(),
{
    if s.len() == 0 {
        None
    } else if s.last() == ':' {
        Some(s.len() - 1)
    } else {
        last_colon(s.drop_last())
    }
}

pub fn rfind_colon(s: &[char]) -> (r: Option<usize>)
    ensures
        match last_colon(s@) {
            Some(i) => r == Some(i as usize),
            None => r.is_none(),
        },
        r matches Some(i) ==> i < s.len() && last_colon(s@) == Some(i as int),
        r.is_none() ==> last_colon(s@).is_none(),
{
    let mut n = s.len();
    assert(s@.subrange(0, s@.len() as int) =~= s@);
    while n > 0
        invariant
            n <= s.len(),
            last_colon(s@) == last_colon(s@.subrange(0, n as int)),
        decreases n,
    {
        if s[n - 1] == ':' {
            return Some(n - 1);
        }
        assert(s@.subrange(0, n as int).drop_last() =~= s@.subrange(0, n - 1));
        n = n - 1;
    }
    None
}

/// The ISO-8601 UTC form `YYYY-MM-DDTHH:MM:SSZ` of a Unix timestamp.
pub open spec fn iso8601_spec(epoch: u64) -> Seq<char> {
    let days = epoch as int / 86400;
    let secs = epoch as int % 86400;
    let (y, m, d) = civil_from_days(days);
    padded_decimal(y as nat, 4) + "-"@ + padded_decimal(m as nat, 2) + "-"@ + padded_decimal(
        d as nat,
        2,
    ) + "T"@ + padded_decimal((secs / 3600) as nat, 2) + ":"@ + padded_decimal(
        ((secs % 3600) / 60) as nat,
        2,
    ) + ":"@ + padded_decimal((secs % 60) as nat, 2) + "Z"@
}

/// Formats a Unix timestamp as ISO-8601 UTC, `YYYY-MM-DDTHH:MM:SSZ`.
pub fn epoch_to_iso8601(epoch: u64) -> (r: String)
    ensures
        r@ == iso8601_spec(epoch),
{
    let days = epoch / 86400;
    let day_secs = epoch % 86400;
    let hour = day_secs / 3600;
    let min = (day_secs % 3600) / 60;
    let sec = day_secs % 60;
    proof {
        assert(days <= crate::casting::max_days()) by {
            assert(epoch as int / 86400 <= 0xffff_ffff_ffff_ffffint / 86400);
        }
    }
    let (y, m, d) = civil_date(days);
    let mut out = String::new();
    push_padded(&mut out, y as u64, 4);
    push_char(&mut out, '-');
    push_padded(&mut out, m, 2);
    push_char(&mut out, '-');
    push_padded(&mut out, d, 2);
    push_char(&mut out, 'T');
    push_padded(&mut out, hour, 2);
    push_char(&mut out, ':');
    push_padded(&mut out, min, 2);
    push_char(&mut out, ':');
    push_padded(&mut out, sec, 2);
    push_char(&mut out, 'Z');
    proof {
        reveal_strlit("-");
        reveal_strlit("T");
        reveal_strlit(":");
        reveal_strlit("Z");
        assert(out@ =~= iso8601_spec(epoch));
    }
    out
}

} // verus!

verus! {

/// Host and port of the radio from its URL: an `http://` prefix is dropped,
/// the port follows the last `:` (9080 when absent or unreadable), and
/// trailing slashes are ignored.
pub open spec fn radio_endpoint_spec(url: Seq<char>) -> (Seq<char>, u16) {
    let stripped = match strip_prefix_spec(url, "http://"@) {
        Some(t) => t,
        None => url,
    };
    match last_colon(stripped) {
        Some(colon) => {
            let port_text = trim_end_char(stripped.subrange(colon + 1, stripped.len() as int), '/');
            let port = match parse_unsigned_spec(port_text, 65535) {
                Some(p) => p as u16,
                None => 9080u16,
            };
            (stripped.subrange(0, colon), port)
        },
        None => (trim_end_char(stripped, '/'), 9080u16),
    }
}

/// Parse host and port from a radio URL such as `http://localhost:9080`.
pub fn radio_endpoint(url: &str) -> (r: (String, u16))
    ensures
        r.0@ == radio_endpoint_spec(url@).0,
        r.1 == radio_endpoint_spec(url@).1,
{
    let chars = chars_of(url);
    let stripped = match strip_prefix(chars.as_slice(), "http://") {
        Some(t) => t,
        None => chars,
    };
    let ghost sp = match strip_prefix_spec(url@, "http://"@) {
        Some(t) => t,
        None => url@,
    };
    assert(stripped@ == sp);
    match rfind_colon(stripped.as_slice()) {
        Some(colon) => {
            let host = slice_range(stripped.as_slice(), 0, colon);
            let rest = slice_range(stripped.as_slice(), colon + 1, stripped.len());
            let port_text = trim_end_matches_char(rest.as_slice(), '/');
            let port = match parse_unsigned(port_text.as_slice(), 65535) {
                Some(p) => {
                    assert(p <= 65535);
                    p as u16
                },
                None => 9080,
            };
            (string_from_chars(host.as_slice()), port)
        },
        None => {
            let host = trim_end_matches_char(stripped.as_slice(), '/');
            (string_from_chars(host.as_slice()), 9080)
        },
    }
}

/// A setting read as an unsigned number no larger than `max`, or `default`
/// where it is missing or does not read as one.
pub open spec fn number_setting(s: Option<&str>, max: nat, default: nat) -> nat {
    match s {
        Some(t) => match parse_unsigned_spec(t@, max) {
            Some(n) => n,
            None => default,
        },
        None => default,
    }
}

fn read_number(s: Option<&str>, max: u64, default: u64) -> (r: u64)
    requires
        default <= max,
    ensures
        r == number_setting(s, max as nat, default as nat),
        r <= max,
{
    match s {
        Some(t) => {
            let cs = chars_of(t);
            match parse_unsigned(cs.as_slice(), max) {
                Some(n) => n,
                None => default,
            }
        },
        None => default,
    }
}

impl ClockConfig {
    /// The configuration from the settings `RADIO_URL` (default
    /// `http://localhost:9080`), `CLOCK_TICK_SECS` (default 60) and
    /// `DREAM_THRESHOLD_BYTES` (default 16), each as found in the
    /// environment if it is there.
    pub fn from_settings(radio_url: Option<&str>, tick_secs: Option<&str>, dream_threshold_bytes: Option<&str>) -> (r: Self)
        ensures
            ({
                let url = match radio_url {
                    Some(u) => u@,
                    None => "http://localhost:9080"@,
                };
                &&& r.radio_host@ == radio_endpoint_spec(url).0
                &&& r.radio_port == radio_endpoint_spec(url).1
            }),
            r.tick_secs == number_setting(tick_secs, u64::MAX as nat, 60),
            r.dream_threshold_bytes == number_setting(dream_threshold_bytes, usize::MAX as nat, 16),
    {
        let url = match radio_url {
            Some(u) => u,
            None => "http://localhost:9080",
        };
        let (radio_host, radio_port) = radio_endpoint(url);
        let tick = read_number(tick_secs, 0xffff_ffff_ffff_ffff, 60);
        let threshold = read_number(dream_threshold_bytes, usize::MAX as u64, 16);
        ClockConfig { radio_host, radio_port, tick_secs: tick, dream_threshold_bytes: threshold as usize }
    }
}

// ---------------------------------------------------------------------------
// Tick decisions
// ---------------------------------------------------------------------------

/// Capacity of the clock's entropy reservoir.
pub const RESERVOIR_CAP: usize = 1024;

/// Bytes a dream draws from the reservoir at most.
pub const DREAM_DRAW: usize = 64;

/// Entropy drawn for a dream.
#[derive(Debug, Clone)]
pub struct DreamDraw {
    /// Reservoir fill before the draw; intensity is its share of `DREAM_DRAW`.
    pub available_bytes: usize,
    /// The bytes consumed for the dream, oldest first.
    pub seed: Vec<u8>,
}

/// Everything one clock tick decides.
#[derive(Debug, Clone)]
pub struct TickOutcome {
    /// `Some(now_available)` when radio availability changed.
    pub status_change: Option<bool>,
    /// The tick's time: the radio's epoch, or the local clock without one.
    pub tick_epoch: u64,
    /// Reservoir fill announced with the tick.
    pub tick_entropy_bytes: usize,
    /// Entropy bytes received this tick.
    pub deposited: usize,
    /// A dream, when the reservoir reached the threshold.
    pub dream: Option<DreamDraw>,
    /// Reservoir fill after the tick.
    pub reservoir_len: usize,
}

/// The clock's mutable state between ticks.
#[derive(Debug, Clone)]
pub struct ClockState {
    pub reservoir: EntropyReservoir,
    pub was_available: bool,
}

/// The number of bytes a dream draws from a reservoir holding `n`.
pub open spec fn draw_len(n: nat) -> nat {
    if n < DREAM_DRAW {
        n
    } else {
        DREAM_DRAW as nat
    }
}

/// What one tick does, from state `s` to state `t` with outcome `r`: the
/// clock remembers the new availability and reports a change of it; the
/// tick's time is the radio's epoch or else the local one; the entropy is
/// deposited and the fill announced; at `threshold` bytes or more a dream
/// draws the oldest `draw_len` of them.
pub open spec fn ticked(
    s: ClockState,
    radio_epoch: Option<u64>,
    entropy: Seq<u8>,
    available: bool,
    local_epoch: u64,
    threshold: nat,
    r: TickOutcome,
    t: ClockState,
) -> bool {
    let filled = deposit_spec(s.reservoir.contents(), entropy, RESERVOIR_CAP as nat);
    let n = draw_len(filled.len());
    &&& t.was_available == available
    &&& r.status_change == (if available != s.was_available {
        Some(available)
    } else {
        None::<bool>
    })
    &&& r.tick_epoch == (match radio_epoch {
        Some(e) => e,
        None => local_epoch,
    })
    &&& r.deposited == entropy.len()
    &&& r.tick_entropy_bytes == filled.len()
    &&& if filled.len() >= threshold {
        &&& r.dream matches Some(d)
        &&& d.available_bytes == filled.len()
        &&& d.seed@ == filled.subrange(0, n as int)
        &&& t.reservoir.contents() == filled.subrange(n as int, filled.len() as int)
    } else {
        &&& r.dream.is_none()
        &&& t.reservoir.contents() == filled
    }
    &&& r.reservoir_len == t.reservoir.contents().len()
}

/// The reservoir after a tick that deposits `entropy`: what is left once a
/// dream has drawn, at the threshold.
pub open spec fn after_tick(contents: Seq<u8>, entropy: Seq<u8>, threshold: nat) -> Seq<u8> {
    let filled = deposit_spec(contents, entropy, RESERVOIR_CAP as nat);
    if filled.len() >= threshold {
        filled.subrange(draw_len(filled.len()) as int, filled.len() as int)
    } else {
        filled
    }
}

/// The reservoir after the first `k` ticks of a run from an empty one.
pub open spec fn run_contents(entropies: Seq<Seq<u8>>, threshold: nat, k: nat) -> Seq<u8>
    decreases k,
{
    if k == 0 {
        Seq::empty()
    } else {
        after_tick(run_contents(entropies, threshold, (k - 1) as nat), entropies[k - 1], threshold)
    }
}

/// The availability a run's clock remembers before tick `k`: that of the
/// tick before, none at first.
pub open spec fn remembered(avails: Seq<bool>, k: int) -> bool {
    k > 0 && avails[k - 1]
}

proof fn lemma_clock_run_state(
    states: Seq<ClockState>,
    outs: Seq<TickOutcome>,
    epochs: Seq<Option<u64>>,
    entropies: Seq<Seq<u8>>,
    avails: Seq<bool>,
    locals: Seq<u64>,
    threshold: nat,
    k: int,
)
    requires
        states.len() == outs.len() + 1,
        epochs.len() == outs.len(),
        entropies.len() == outs.len(),
        avails.len() == outs.len(),
        locals.len() == outs.len(),
        states[0].reservoir.contents() == Seq::<u8>::empty(),
        !states[0].was_available,
        forall|i: int|
            0 <= i < outs.len() ==> ticked(
                states[i],
                epochs[i],
                entropies[i],
                avails[i],
                locals[i],
                threshold,
                #[trigger] outs[i],
                states[i + 1],
            ),
        0 <= k <= outs.len(),
    ensures
        states[k].reservoir.contents() == run_contents(entropies, threshold, k as nat),
        states[k].was_available == remembered(avails, k),
    decreases k,
{
    if k > 0 {
        lemma_clock_run_state(states, outs, epochs, entropies, avails, locals, threshold, k - 1);
        assert(ticked(
            states[k - 1],
            epochs[k - 1],
            entropies[k - 1],
            avails[k - 1],
            locals[k - 1],
            threshold,
            outs[k - 1],
            states[k],
        ));
    }
}

/// A run of ticks from a fresh clock: before tick `k` the reservoir holds
/// what the earlier deposits and dream draws left, and the clock remembers
/// the availability of the tick before (none at first).  Tick `k` reports a
/// status change exactly when its availability differs from that one,
/// announces the reservoir's fill after its deposit, and draws a dream seed
/// exactly when that fill reaches the threshold: the oldest `draw_len` bytes.
pub proof fn clock_run(
    states: Seq<ClockState>,
    outs: Seq<TickOutcome>,
    epochs: Seq<Option<u64>>,
    entropies: Seq<Seq<u8>>,
    avails: Seq<bool>,
    locals: Seq<u64>,
    threshold: nat,
    k: int,
)
    requires
        states.len() == outs.len() + 1,
        epochs.len() == outs.len(),
        entropies.len() == outs.len(),
        avails.len() == outs.len(),
        locals.len() == outs.len(),
        states[0].reservoir.contents() == Seq::<u8>::empty(),
        !states[0].was_available,
        forall|i: int|
            0 <= i < outs.len() ==> ticked(
                states[i],
                epochs[i],
                entropies[i],
                avails[i],
                locals[i],
                threshold,
                #[trigger] outs[i],
                states[i + 1],
            ),
        0 <= k < outs.len(),
    ensures
        ({
            let filled = deposit_spec(run_contents(entropies, threshold, k as nat), entropies[k], RESERVOIR_CAP as nat);
            &&& outs[k].status_change == (if avails[k] != remembered(avails, k) {
                Some(avails[k])
            } else {
                None::<bool>
            })
            &&& outs[k].tick_entropy_bytes == filled.len()
            &&& (outs[k].dream is Some <==> filled.len() >= threshold)
            &&& (outs[k].dream matches Some(d) ==> d.seed@ == filled.subrange(0, draw_len(filled.len()) as int))
            &&& states[k + 1].reservoir.contents() == run_contents(entropies, threshold, (k + 1) as nat)
        }),
{
    lemma_clock_run_state(states, outs, epochs, entropies, avails, locals, threshold, k);
    lemma_clock_run_state(states, outs, epochs, entropies, avails, locals, threshold, k + 1);
    assert(ticked(states[k], epochs[k], entropies[k], avails[k], locals[k], threshold, outs[k], states[k + 1]));
}

impl ClockState {
    pub open spec fn wf(&self) -> bool {
        self.reservoir.wf() && self.reservoir.capacity() == RESERVOIR_CAP
    }

    pub fn new() -> (r: Self)
        ensures
            r.wf(),
            r.reservoir.contents() == Seq::<u8>::empty(),
            !r.was_available,
    {
        ClockState { reservoir: EntropyReservoir::new(RESERVOIR_CAP), was_available: false }
    }

    /// One clock tick: record availability, deposit entropy, announce the
    /// tick, and draw a dream seed once the reservoir holds at least
    /// `dream_threshold_bytes`.
    pub fn tick(
        &mut self,
        radio_epoch: Option<u64>,
        entropy: &[u8],
        available: bool,
        local_epoch: u64,
        dream_threshold_bytes: usize,
    ) -> (r: TickOutcome)
        requires
            old(self).wf(),
            entropy@.len() <= usize::MAX - RESERVOIR_CAP,
        ensures
            final(self).wf(),
            ticked(
                *old(self),
                radio_epoch,
                entropy@,
                available,
                local_epoch,
                dream_threshold_bytes as nat,
                r,
                *final(self),
            ),
    {
        let status_change = if available != self.was_available {
            self.was_available = available;
            Some(available)
        } else {
            None
        };
        if entropy.len() > 0 {
            self.reservoir.deposit(entropy);
        } else {
            assert(deposit_spec(self.reservoir.contents(), entropy@, RESERVOIR_CAP as nat) =~= self.reservoir.contents());
        }
        let tick_epoch = match radio_epoch {
            Some(e) => e,
            None => local_epoch,
        };
        let tick_entropy_bytes = self.reservoir.len();
        let dream = if self.reservoir.len() >= dream_threshold_bytes {
            let available_bytes = self.reservoir.len();
            let n = if available_bytes < DREAM_DRAW { available_bytes } else { DREAM_DRAW };
            let ghost before = self.reservoir.contents();
            let seed = self.reservoir.consume(n);
            assert(seed@ =~= before.subrange(0, n as int));
            assert(self.reservoir.contents() =~= before.subrange(n as int, before.len() as int));
            Some(DreamDraw { available_bytes, seed })
        } else {
            None
        };
        let reservoir_len = self.reservoir.len();
        TickOutcome {
            status_change,
            tick_epoch,
            tick_entropy_bytes,
            deposited: entropy.len(),
            dream,
            reservoir_len,
        }
    }
}

} // verus!
