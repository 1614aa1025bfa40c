//! Kitty graphics protocol support for transmitting a PNG over terminal cells.
//!
//! Reference: <https://sw.kovidgoyal.net/kitty/graphics-protocol/>. PNG payloads
//! use `f=100` and are compressed before base64 encoding.

use vstd::prelude::*;
use base64::Engine;
use crate::text::{
    ascii_small, characters, contains, decimal, occurs, push_decimal, same_when_small,
};

verus! {

/// Protocol maximum number of base64 characters in one escape sequence.
pub const CHUNK_CHARS: usize = 4096;

/// Raw bytes that encode to one full chunk without base64 padding.
pub const CHUNK_BYTES: usize = 3072;

/// What the environment says of the terminal.
pub struct Surroundings {
    /// Whether `KITTY_WINDOW_ID` is set.
    pub kitty_window: bool,
    /// Whether `KONSOLE_VERSION` is set.
    pub konsole: bool,
    /// `TERM`, where it is text.
    pub term: Option<String>,
    /// `TERM_PROGRAM`, where it is text.
    pub program: Option<String>,
}

/// The environment is that of a terminal that is known to speak the protocol.
/// Ghostty and Konsole announce themselves under their own names.
pub open spec fn speaks_kitty(around: Surroundings) -> bool {
    ||| around.kitty_window
    ||| around.konsole
    ||| around.term matches Some(term) && occurs("kitty"@, term@)
    ||| around.program matches Some(program) && (ascii_small(program@) == "ghostty"@ || ascii_small(
        program@,
    ) == "konsole"@)
}

/// Whether images are drawn: as the user says, or else by the environment.
///
/// Active terminal queries need raw mode and a timeout race, which can hang an
/// external diff. Environment variables are the safer heuristic.
pub fn supported(mode: Option<bool>, around: &Surroundings) -> (r: bool)
    ensures
        r == (match mode {
            Some(forced) => forced,
            None => speaks_kitty(*around),
        }),
{
    match mode {
        Some(forced) => forced,
        None => {
            if around.kitty_window || around.konsole {
                return true;
            }
            match &around.term {
                Some(term) => {
                    if contains(term.as_str(), "kitty") {
                        return true;
                    }
                },
                None => {},
            }
            match &around.program {
                Some(program) => same_when_small(program.as_str(), "ghostty") || same_when_small(
                    program.as_str(),
                    "konsole",
                ),
                None => false,
            }
        },
    }
}

/// The base64 character of a six-bit number.
pub open spec fn sextet(n: int) -> char {
    if n < 26 {
        (65 + n) as char
    } else if n < 52 {
        (97 + n - 26) as char
    } else if n < 62 {
        (48 + n - 52) as char
    } else if n == 62 {
        '+'
    } else {
        '/'
    }
}

/// Bytes in base64, with padding.
pub open spec fn base64_text(bytes: Seq<u8>) -> Seq<char>
    decreases bytes.len(),
{
    if bytes.len() == 0 {
        Seq::empty()
    } else if bytes.len() == 1 {
        seq![sextet(bytes[0] as int / 4), sextet(bytes[0] as int % 4 * 16), '=', '=']
    } else if bytes.len() == 2 {
        seq![
            sextet(bytes[0] as int / 4),
            sextet(bytes[0] as int % 4 * 16 + bytes[1] as int / 16),
            sextet(bytes[1] as int % 16 * 4),
            '=',
        ]
    } else {
        seq![
            sextet(bytes[0] as int / 4),
            sextet(bytes[0] as int % 4 * 16 + bytes[1] as int / 16),
            sextet(bytes[1] as int % 16 * 4 + bytes[2] as int / 64),
            sextet(bytes[2] as int % 64),
        ] + base64_text(bytes.skip(3))
    }
}

/// Encodes bytes in base64, by the standard engine of the `base64` crate: the
/// standard alphabet, with padding.
#[verifier::external_body]
fn encode_base64(bytes: &[u8]) -> (r: String)
    requires
        bytes@.len() <= CHUNK_BYTES,
    ensures
        r@ == base64_text(bytes@),
{
    base64::engine::general_purpose::STANDARD.encode(bytes)
}

/// The six-bit number of a base64 character.
pub open spec fn sextet_value(c: char) -> int {
    if 'A' <= c <= 'Z' {
        c as int - 65
    } else if 'a' <= c <= 'z' {
        c as int - 97 + 26
    } else if '0' <= c <= '9' {
        c as int - 48 + 52
    } else if c == '+' {
        62
    } else {
        63
    }
}

/// Base64 read back.
pub open spec fn base64_bytes(text: Seq<char>) -> Seq<u8>
    decreases text.len(),
{
    if text.len() < 4 {
        Seq::empty()
    } else {
        let a = sextet_value(text[0]);
        let b = sextet_value(text[1]);
        let c = sextet_value(text[2]);
        let d = sextet_value(text[3]);
        let first = (a * 4 + b / 16) as u8;
        let second = (b % 16 * 16 + c / 4) as u8;
        let third = (c % 4 * 64 + d) as u8;
        if text[2] == '=' {
            seq![first]
        } else if text[3] == '=' {
            seq![first, second]
        } else {
            seq![first, second, third] + base64_bytes(text.skip(4))
        }
    }
}

proof fn lemma_sextet_reads_back(n: int)
    requires
        0 <= n < 64,
    ensures
        sextet_value(sextet(n)) == n,
        sextet(n) != '=',
        (sextet(n) as int) < 128,
{
}

/// What is encoded in base64 reads back as it was.
pub proof fn lemma_base64_reads_back(bytes: Seq<u8>)
    ensures
        base64_bytes(base64_text(bytes)) == bytes,
    decreases bytes.len(),
{
    let text = base64_text(bytes);
    if bytes.len() == 0 {
        assert(base64_bytes(text) =~= bytes);
    } else {
        let x = bytes[0] as int;
        lemma_sextet_reads_back(x / 4);
        lemma_sextet_reads_back(x % 4 * 16);
        if bytes.len() == 1 {
            assert(base64_bytes(text) =~= bytes);
        } else {
            let y = bytes[1] as int;
            lemma_sextet_reads_back(x % 4 * 16 + y / 16);
            lemma_sextet_reads_back(y % 16 * 4);
            if bytes.len() == 2 {
                assert(base64_bytes(text) =~= bytes);
            } else {
                let z = bytes[2] as int;
                lemma_sextet_reads_back(y % 16 * 4 + z / 64);
                lemma_sextet_reads_back(z % 64);
                lemma_base64_reads_back(bytes.skip(3));
                assert(text.skip(4) =~= base64_text(bytes.skip(3)));
                assert(base64_bytes(text) =~= bytes);
            }
        }
    }
}

/// The length of bytes in base64: four characters for every three bytes or part
/// of three.
pub proof fn lemma_base64_length(bytes: Seq<u8>)
    ensures
        base64_text(bytes).len() == (bytes.len() + 2) / 3 * 4,
    decreases bytes.len(),
{
    if bytes.len() >= 3 {
        lemma_base64_length(bytes.skip(3));
    }
}

/// Bytes that are cut where no padding is needed may be encoded piece by piece.
pub proof fn lemma_base64_joins(a: Seq<u8>, b: Seq<u8>)
    requires
        a.len() % 3 == 0,
    ensures
        base64_text(a + b) == base64_text(a) + base64_text(b),
    decreases a.len(),
{
    if a.len() == 0 {
        assert(a + b =~= b);
        assert(base64_text(a) + base64_text(b) =~= base64_text(b));
    } else {
        lemma_base64_joins(a.skip(3), b);
        assert((a + b).skip(3) =~= a.skip(3) + b);
        assert(base64_text(a + b) =~= base64_text(a) + base64_text(b));
    }
}

/// ASCII text as bytes.
pub open spec fn ascii(text: Seq<char>) -> Seq<u8> {
    Seq::new(text.len(), |i: int| text[i] as u8)
}

/// The bytes that open an escape sequence of the protocol.
pub open spec fn opening() -> Seq<u8> {
    seq![0x1bu8, 95u8, 71u8]
}

/// The bytes that close an escape sequence.
pub open spec fn closing() -> Seq<u8> {
    seq![0x1bu8, 92u8]
}

/// The number of chunks that an image is sent in.
pub open spec fn chunk_count(png: Seq<u8>) -> int {
    (png.len() as int + 3071) / 3072
}

/// One chunk of an image.
pub open spec fn chunk(png: Seq<u8>, k: int) -> Seq<u8> {
    png.subrange(
        3072 * k,
        if 3072 * k + 3072 <= png.len() {
            3072 * k + 3072
        } else {
            png.len() as int
        },
    )
}

/// The control data in front of a chunk. `a=T` transmits and displays, `f=100`
/// selects PNG, `C=1` leaves the cursor where it is, `q=2` suppresses terminal
/// replies that would remain in the input queue, and `m` says whether more chunks
/// follow.
pub open spec fn control(k: int, columns: u32, rows: u32, more: bool) -> Seq<char> {
    let flag = if more {
        "m=1;"@
    } else {
        "m=0;"@
    };
    if k == 0 {
        "a=T,f=100,c="@ + decimal(columns as nat) + ",r="@ + decimal(rows as nat) + ",C=1,q=2,"@
            + flag
    } else {
        flag
    }
}

/// The escape sequence of a chunk.
pub open spec fn sequence(png: Seq<u8>, k: int, columns: u32, rows: u32) -> Seq<u8> {
    opening() + ascii(control(k, columns, rows, k + 1 < chunk_count(png))) + ascii(
        base64_text(chunk(png, k)),
    ) + closing()
}

/// Bytes with each escape byte doubled.
pub open spec fn doubled(bytes: Seq<u8>) -> Seq<u8>
    decreases bytes.len(),
{
    if bytes.len() == 0 {
        Seq::empty()
    } else if bytes.last() == 0x1b {
        doubled(bytes.drop_last()).push(0x1b).push(0x1b)
    } else {
        doubled(bytes.drop_last()).push(bytes.last())
    }
}

/// The bytes that open a passage through tmux: the escape byte and `Ptmux;`.
pub open spec fn tmux_opening() -> Seq<u8> {
    seq![0x1bu8, 80u8, 116u8, 109u8, 117u8, 120u8, 59u8]
}

/// A sequence as it is sent: through tmux it is wrapped, with each escape byte in
/// it doubled.
pub open spec fn framed(bytes: Seq<u8>, tmux: bool) -> Seq<u8> {
    if tmux {
        tmux_opening() + doubled(bytes) + closing()
    } else {
        bytes
    }
}

/// The first `n` chunks of an image as they are sent.
pub open spec fn sent(png: Seq<u8>, n: int, columns: u32, rows: u32, tmux: bool) -> Seq<u8>
    decreases n,
{
    if n <= 0 {
        Seq::empty()
    } else {
        sent(png, n - 1, columns, rows, tmux) + framed(sequence(png, n - 1, columns, rows), tmux)
    }
}

/// An image as it is sent.
pub open spec fn transmission(png: Seq<u8>, columns: u32, rows: u32, tmux: bool) -> Seq<u8> {
    sent(png, chunk_count(png), columns, rows, tmux)
}

/// Doubled bytes with one of each two escape bytes taken out again.
pub open spec fn undoubled(bytes: Seq<u8>) -> Seq<u8>
    decreases bytes.len(),
{
    if bytes.len() == 0 {
        Seq::empty()
    } else if bytes.len() >= 2 && bytes.last() == 0x1b && bytes[bytes.len() - 2] == 0x1b {
        undoubled(bytes.take(bytes.len() - 2)).push(0x1b)
    } else {
        undoubled(bytes.drop_last()).push(bytes.last())
    }
}

/// What goes through tmux comes out as it went in.
pub proof fn lemma_passage_undoes(bytes: Seq<u8>)
    ensures
        undoubled(doubled(bytes)) == bytes,
    decreases bytes.len(),
{
    if bytes.len() > 0 {
        let rest = bytes.drop_last();
        lemma_passage_undoes(rest);
        let d = doubled(rest);
        if bytes.last() == 0x1b {
            let all = d.push(0x1b).push(0x1b);
            assert(all.take(all.len() - 2) =~= d);
        } else {
            let all = d.push(bytes.last());
            assert(all.drop_last() =~= d);
        }
        assert(rest.push(bytes.last()) =~= bytes);
    }
}

/// The base64 text of the first `n` chunks, in a row.
pub open spec fn payload(png: Seq<u8>, n: int) -> Seq<char>
    decreases n,
{
    if n <= 0 {
        Seq::empty()
    } else {
        payload(png, n - 1) + base64_text(chunk(png, n - 1))
    }
}

/// The chunks carry the image: put together their payloads are the base64 of the
/// whole file, which reads back as the file.
pub proof fn lemma_payload_is_the_image(png: Seq<u8>)
    ensures
        payload(png, chunk_count(png)) == base64_text(png),
        base64_bytes(payload(png, chunk_count(png))) == png,
{
    lemma_payload(png, chunk_count(png));
    if png.len() == 0 {
        assert(png.take(0) =~= png);
    }
    assert(png.take(png.len() as int) =~= png);
    lemma_base64_reads_back(png);
}

proof fn lemma_payload(png: Seq<u8>, n: int)
    requires
        0 <= n <= chunk_count(png),
    ensures
        payload(png, n) == base64_text(
            png.take(
                if 3072 * n <= png.len() {
                    3072 * n
                } else {
                    png.len() as int
                },
            ),
        ),
    decreases n,
{
    if n > 0 {
        lemma_payload(png, n - 1);
        let head = png.take(3072 * (n - 1));
        let piece = chunk(png, n - 1);
        assert(head.len() % 3 == 0);
        lemma_base64_joins(head, piece);
        assert(head + piece =~= png.take(
            if 3072 * n <= png.len() {
                3072 * n
            } else {
                png.len() as int
            },
        ));
    } else {
        assert(png.take(0) =~= Seq::empty());
    }
}

/// No chunk is longer than the protocol allows.
pub proof fn lemma_chunks_are_small(png: Seq<u8>, k: int)
    requires
        0 <= k < chunk_count(png),
    ensures
        0 < base64_text(chunk(png, k)).len() <= CHUNK_CHARS,
{
    lemma_base64_length(chunk(png, k));
}

/// Append ASCII text.
fn push_ascii(out: &mut Vec<u8>, text: &str)
    requires
        forall|i: int| 0 <= i < text@.len() ==> (#[trigger] text@[i] as int) < 128,
    ensures
        final(out)@ == old(out)@ + ascii(text@),
{
    let letters = characters(text);
    let ghost start = out@;
    let mut i: usize = 0;
    assert(start + ascii(text@).take(0) =~= start);
    while i < letters.len()
        invariant
            i <= letters.len(),
            letters@ == text@,
            forall|i: int| 0 <= i < text@.len() ==> (#[trigger] text@[i] as int) < 128,
            out@ == start + ascii(text@).take(i as int),
        decreases letters.len() - i,
    {
        let c = letters[i];
        out.push(c as u8);
        assert(out@ =~= start + ascii(text@).take(i + 1));
        i = i + 1;
    }
    assert(ascii(text@).take(i as int) =~= ascii(text@));
}

proof fn lemma_base64_is_ascii(bytes: Seq<u8>, i: int)
    requires
        0 <= i < base64_text(bytes).len(),
    ensures
        (base64_text(bytes)[i] as int) < 128,
    decreases bytes.len(),
{
    if bytes.len() >= 3 && i >= 4 {
        lemma_base64_is_ascii(bytes.skip(3), i - 4);
        assert(base64_text(bytes)[i] == base64_text(bytes.skip(3))[i - 4]);
    }
}

proof fn lemma_decimal_is_ascii(n: nat, i: int)
    requires
        0 <= i < decimal(n).len(),
    ensures
        (decimal(n)[i] as int) < 128,
    decreases n,
{
    if n >= 10 && i < decimal(n).len() - 1 {
        lemma_decimal_is_ascii(n / 10, i);
        assert(decimal(n)[i] == decimal(n / 10)[i]);
    }
}

proof fn lemma_control_is_ascii(k: int, columns: u32, rows: u32, more: bool, i: int)
    requires
        0 <= i < control(k, columns, rows, more).len(),
    ensures
        (control(k, columns, rows, more)[i] as int) < 128,
{
    reveal_strlit("m=1;");
    reveal_strlit("m=0;");
    reveal_strlit("a=T,f=100,c=");
    reveal_strlit(",r=");
    reveal_strlit(",C=1,q=2,");
    if k == 0 {
        let c = decimal(columns as nat);
        let r = decimal(rows as nat);
        let a = "a=T,f=100,c="@.len();
        if a <= i < a + c.len() {
            lemma_decimal_is_ascii(columns as nat, i - a);
        }
        let b = a + c.len() + ",r="@.len();
        if b <= i < b + r.len() {
            lemma_decimal_is_ascii(rows as nat, i - b);
        }
    }
}

/// Wrap escape sequences for tmux passthrough, which requires
/// `set -g allow-passthrough on`.
fn push_framed(out: &mut Vec<u8>, bytes: &Vec<u8>, tmux: bool)
    ensures
        final(out)@ == old(out)@ + framed(bytes@, tmux),
{
    if !tmux {
        out.extend_from_slice(bytes.as_slice());
        assert(out@ =~= old(out)@ + bytes@);
        return;
    }
    let ghost start = out@;
    out.push(0x1b);
    out.push(80);
    out.push(116);
    out.push(109);
    out.push(117);
    out.push(120);
    out.push(59);
    assert(out@ =~= start + tmux_opening());
    let mut i: usize = 0;
    assert(bytes@.take(0) =~= Seq::<u8>::empty());
    assert(out@ =~= start + tmux_opening() + doubled(bytes@.take(0)));
    while i < bytes.len()
        invariant
            i <= bytes.len(),
            out@ == start + tmux_opening() + doubled(bytes@.take(i as int)),
        decreases bytes.len() - i,
    {
        let ghost so_far = out@;
        let byte: u8 = bytes[i];
        // A literal escape inside the passthrough payload must be doubled.
        if byte == 0x1b {
            out.push(0x1b);
        }
        out.push(byte);
        proof {
            assert(bytes@.take(i + 1).drop_last() =~= bytes@.take(i as int));
            assert(bytes@.take(i + 1).last() == byte);
            assert(out@ =~= start + tmux_opening() + doubled(bytes@.take(i + 1)));
        }
        i = i + 1;
    }
    assert(bytes@.take(i as int) =~= bytes@);
    out.push(0x1b);
    out.push(92);
    assert(out@ =~= start + (tmux_opening() + doubled(bytes@) + closing()));
}

/// The escape sequence of a chunk.
fn make_sequence(png: &[u8], k: usize, count: usize, columns: u32, rows: u32) -> (r: Vec<u8>)
    requires
        k < count,
        count == chunk_count(png@),
    ensures
        r@ == sequence(png@, k as int, columns, rows),
{
    let size: usize = png.len();
    assert(3072 * k < size);
    let from: usize = 3072 * k;
    let to: usize = if size - from >= 3072 {
        from + 3072
    } else {
        size
    };
    let more = k + 1 < count;
    let mut text = String::new();
    if k == 0 {
        text.append("a=T,f=100,c=");
        push_decimal(&mut text, columns as u64);
        text.append(",r=");
        push_decimal(&mut text, rows as u64);
        text.append(",C=1,q=2,");
    }
    if more {
        text.append("m=1;");
    } else {
        text.append("m=0;");
    }
    assert(text@ =~= control(k as int, columns, rows, more));
    let mut out: Vec<u8> = Vec::new();
    out.push(0x1b);
    out.push(95);
    out.push(71);
    assert(out@ =~= opening());
    assert forall|i: int| 0 <= i < text@.len() implies (#[trigger] text@[i] as int) < 128 by {
        lemma_control_is_ascii(k as int, columns, rows, more, i);
    }
    push_ascii(&mut out, text.as_str());
    let piece = vstd::slice::slice_subrange(png, from, to);
    assert(piece@ =~= chunk(png@, k as int));
    let body = encode_base64(piece);
    assert forall|i: int| 0 <= i < body@.len() implies (#[trigger] body@[i] as int) < 128 by {
        lemma_base64_is_ascii(piece@, i);
    }
    push_ascii(&mut out, body.as_str());
    out.push(0x1b);
    out.push(92);
    assert(out@ =~= sequence(png@, k as int, columns, rows));
    out
}

/// Transmits a PNG in protocol-sized chunks and positions it over the cell
/// rectangle, leaving the cursor where it is: the bytes to be written.
pub fn write_png(out: &mut Vec<u8>, png: &[u8], columns: u32, rows: u32, tmux: bool)
    ensures
        final(out)@ == old(out)@ + transmission(png@, columns, rows, tmux),
{
    let whole: usize = png.len() / CHUNK_BYTES;
    let count: usize = if png.len() % CHUNK_BYTES == 0 {
        whole
    } else {
        whole + 1
    };
    let ghost start = out@;
    let mut k: usize = 0;
    assert(out@ =~= start + sent(png@, 0, columns, rows, tmux));
    while k < count
        invariant
            k <= count,
            count == chunk_count(png@),
            out@ == start + sent(png@, k as int, columns, rows, tmux),
        decreases count - k,
    {
        let ghost so_far = out@;
        let piece = make_sequence(png, k, count, columns, rows);
        push_framed(out, &piece, tmux);
        assert(out@ =~= start + sent(png@, k + 1, columns, rows, tmux));
        k = k + 1;
    }
}

/// The escape sequences of an image come one after another, in the order of its chunks.
pub proof fn lemma_sequences_come_in_order(
    png: Seq<u8>,
    columns: u32,
    rows: u32,
    tmux: bool,
)
    ensures
        transmission(png, columns, rows, tmux) == Seq::new(
            chunk_count(png) as nat,
            |k: int| framed(sequence(png, k, columns, rows), tmux),
        ).flatten(),
{
    lemma_sent_in_order(png, chunk_count(png), columns, rows, tmux);
}

proof fn lemma_sent_in_order(png: Seq<u8>, n: int, columns: u32, rows: u32, tmux: bool)
    requires
        0 <= n,
    ensures
        sent(png, n, columns, rows, tmux) == Seq::new(
            n as nat,
            |k: int| framed(sequence(png, k, columns, rows), tmux),
        ).flatten(),
    decreases n,
{
    let all = Seq::new(n as nat, |k: int| framed(sequence(png, k, columns, rows), tmux));
    if n == 0 {
        assert(all.flatten() =~= Seq::<u8>::empty());
    } else {
        lemma_sent_in_order(png, n - 1, columns, rows, tmux);
        let fewer = Seq::new(
            (n - 1) as nat,
            |k: int| framed(sequence(png, k, columns, rows), tmux),
        );
        assert(all.drop_last() =~= fewer);
        all.lemma_flatten_and_flatten_alt_are_equivalent();
        fewer.lemma_flatten_and_flatten_alt_are_equivalent();
    }
}

/// Some bytes say a text.
pub open spec fn say(bytes: Seq<u8>, text: Seq<char>) -> bool {
    bytes.len() == text.len() && forall|i: int|
        0 <= i < text.len() ==> #[trigger] bytes[i] == text[i] as u8
}

/// A chunk is sent between the escape that opens a graphics command and the one that closes
/// it. The first says that a PNG file is to be shown over so many columns and so many rows,
/// with the cursor left alone and no reply; all but the last say that more follow; and behind
/// the semicolon stands the base64 of the chunk.
pub proof fn lemma_sequence_says_what_to_show(
    png: Seq<u8>,
    k: int,
    columns: u32,
    rows: u32,
) -> (parts: (Seq<u8>, Seq<u8>))
    requires
        0 <= k < chunk_count(png),
    ensures
        sequence(png, k, columns, rows) == seq![27u8, 95u8, 71u8] + parts.0 + parts.1 + seq![
            27u8,
            92u8,
        ],
        k == 0 && png.len() > 3072 ==> say(
            parts.0,
            "a=T,f=100,c="@ + decimal(columns as nat) + ",r="@ + decimal(rows as nat)
                + ",C=1,q=2,"@ + "m=1;"@,
        ),
        k == 0 && png.len() <= 3072 ==> say(
            parts.0,
            "a=T,f=100,c="@ + decimal(columns as nat) + ",r="@ + decimal(rows as nat)
                + ",C=1,q=2,"@ + "m=0;"@,
        ),
        k > 0 && 3072 * (k + 1) < png.len() ==> say(parts.0, "m=1;"@),
        k > 0 && 3072 * (k + 1) >= png.len() ==> say(parts.0, "m=0;"@),
        say(
            parts.1,
            base64_text(
                png.subrange(
                    3072 * k,
                    if 3072 * (k + 1) <= png.len() {
                        3072 * (k + 1)
                    } else {
                        png.len() as int
                    },
                ),
            ),
        ),
{
    let more = k + 1 < chunk_count(png);
    (ascii(control(k, columns, rows, more)), ascii(base64_text(chunk(png, k))))
}

/// Through tmux a sequence goes between the escape that tmux passes on and the one that ends
/// it, with nothing in it but the sequence, its escape bytes doubled; elsewhere it goes as it
/// is.
pub proof fn lemma_passage_wraps(bytes: Seq<u8>) -> (inner: Seq<u8>)
    ensures
        framed(bytes, true) == seq![27u8, 80u8, 116u8, 109u8, 117u8, 120u8, 59u8] + inner + seq![
            27u8,
            92u8,
        ],
        undoubled(inner) == bytes,
        framed(bytes, false) == bytes,
{
    lemma_passage_undoes(bytes);
    doubled(bytes)
}

/// Images are drawn as the user says; where they say nothing, in the terminals that are known
/// by a variable of theirs or by name, and in no other.
pub proof fn lemma_terminals_are_known(mode: Option<bool>, around: &Surroundings, r: bool)
    requires
        call_ensures(supported, (mode, around), r),
    ensures
        mode matches Some(forced) ==> r == forced,
        mode is None && around.kitty_window ==> r,
        mode is None && around.konsole ==> r,
        mode is None && around.term is Some && occurs("kitty"@, around.term->0@) ==> r,
        mode is None && around.program is Some && ascii_small(around.program->0@) == "ghostty"@
            ==> r,
        mode is None && around.program is Some && ascii_small(around.program->0@) == "konsole"@
            ==> r,
        mode is None && r ==> around.kitty_window || around.konsole || around.term is Some
            || around.program is Some,
        mode is None && !around.kitty_window && !around.konsole && (around.term is None
            || !occurs("kitty"@, around.term->0@)) && (around.program is None || ascii_small(
            around.program->0@,
        ) != "ghostty"@ && ascii_small(around.program->0@) != "konsole"@) ==> !r,
{
}

} // verus!
