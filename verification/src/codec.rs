use crate::bar::{models, BarModel, PriceBar};
use crate::error::{ErrorModel, PipelineError};
use vstd::bytes::{
    lemma_auto_spec_u64_to_from_le_bytes, spec_u64_from_le_bytes, spec_u64_to_le_bytes,
    u64_from_le_bytes, u64_to_le_bytes,
};
use vstd::prelude::*;
use vstd::slice::{slice_subrange, slice_to_vec};
use vstd::utf8::{
    decode_utf8, decode_utf8_encode_utf8, encode_utf8, encode_utf8_decode_utf8,
    encode_utf8_valid_utf8, valid_utf8,
};

verus! {

/// The archive opens with the letters `PBA` and the format version, 1.
pub open spec fn format_tag() -> Seq<u8> {
    seq![80u8, 66u8, 65u8, 1u8]
}

/// A 64-bit word, least significant byte first.
pub open spec fn word(x: u64) -> Seq<u8> {
    spec_u64_to_le_bytes(x)
}

/// The word stored at `pos`.
pub open spec fn read_word(bytes: Seq<u8>, pos: int) -> u64 {
    spec_u64_from_le_bytes(bytes.subrange(pos, pos + 8))
}

/// One record: the byte length of the date, the date in UTF-8, then open,
/// high, low, close and volume as words.
pub open spec fn bar_bytes(b: BarModel) -> Seq<u8> {
    let d = encode_utf8(b.date);
    word(d.len() as u64) + d + word(b.open) + word(b.high) + word(b.low) + word(b.close) + word(
        b.volume,
    )
}

pub open spec fn bars_bytes(s: Seq<BarModel>) -> Seq<u8>
    decreases s.len(),
{
    if s.len() == 0 {
        Seq::empty()
    } else {
        bar_bytes(s.first()) + bars_bytes(s.drop_first())
    }
}

/// The whole archive: tag, record count, records.
pub open spec fn archive_bytes(s: Seq<BarModel>) -> Seq<u8> {
    format_tag() + word(s.len() as u64) + bars_bytes(s)
}

/// The record that starts at `pos` and the position behind it, if a whole
/// record with a well-formed date and finite numbers stands there.
pub open spec fn parse_bar(bytes: Seq<u8>, pos: int) -> Option<(BarModel, int)> {
    if pos < 0 || pos + 8 > bytes.len() {
        None
    } else {
        let n = read_word(bytes, pos) as int;
        let p = pos + 8 + n;
        if p + 40 > bytes.len() {
            None
        } else {
            let d = bytes.subrange(pos + 8, p);
            let bar = BarModel {
                date: decode_utf8(d),
                open: read_word(bytes, p),
                high: read_word(bytes, p + 8),
                low: read_word(bytes, p + 16),
                close: read_word(bytes, p + 24),
                volume: read_word(bytes, p + 32),
            };
            if valid_utf8(d) && bar.finite() {
                Some((bar, p + 40))
            } else {
                None
            }
        }
    }
}

/// `n` records in a row from `pos`, and the position behind the last.
pub open spec fn parse_bars(bytes: Seq<u8>, pos: int, n: nat) -> Option<(Seq<BarModel>, int)>
    decreases n,
{
    if n == 0 {
        Some((Seq::empty(), pos))
    } else {
        match parse_bar(bytes, pos) {
            None => None,
            Some((bar, next)) => prepend(seq![bar], parse_bars(bytes, next, (n - 1) as nat)),
        }
    }
}

/// `tail` with `head` put in front of its records.
pub open spec fn prepend(head: Seq<BarModel>, tail: Option<(Seq<BarModel>, int)>) -> Option<
    (Seq<BarModel>, int),
> {
    match tail {
        None => None,
        Some((rest, end)) => Some((head + rest, end)),
    }
}

/// What an archive holds: `None` unless the bytes are exactly a tag of this
/// version, a count, and that many well-formed records with nothing behind.
pub open spec fn parse_archive(bytes: Seq<u8>) -> Option<Seq<BarModel>> {
    if bytes.len() < 12 || bytes.subrange(0, 4) != format_tag() {
        None
    } else {
        match parse_bars(bytes, 12, read_word(bytes, 4) as nat) {
            Some((bars, end)) => if end == bytes.len() {
                Some(bars)
            } else {
                None
            },
            None => None,
        }
    }
}

/// Where reading `n` records from `pos` stops: at the first that cannot be
/// read, or behind the last.
pub open spec fn bars_stop(bytes: Seq<u8>, pos: int, n: nat) -> int
    decreases n,
{
    if n == 0 {
        pos
    } else {
        match parse_bar(bytes, pos) {
            None => pos,
            Some((_, next)) => bars_stop(bytes, next, (n - 1) as nat),
        }
    }
}

/// Where reading an archive stops: at 0 if the header is short or of another
/// tag or version, else where reading its records stops.
pub open spec fn archive_stop(bytes: Seq<u8>) -> int {
    if bytes.len() < 12 || bytes.subrange(0, 4) != format_tag() {
        0
    } else {
        bars_stop(bytes, 12, read_word(bytes, 4) as nat)
    }
}

/// A bar that the format can hold: finite numbers, and a date whose byte
/// length fits a word.
pub open spec fn storable(b: BarModel) -> bool {
    b.finite() && encode_utf8(b.date).len() <= u64::MAX
}

/// `String::from_utf8` of std: the text that the bytes spell, unless they are
/// not well-formed UTF-8.
#[verifier::external_body]
pub(crate) fn text_from_utf8(bytes: Vec<u8>) -> (r: Option<String>)
    ensures
        r is Some <==> valid_utf8(bytes@),
        r matches Some(s) ==> s@ == decode_utf8(bytes@),
{
    String::from_utf8(bytes).ok()
}

fn put_word(out: &mut Vec<u8>, x: u64)
    ensures
        final(out)@ == old(out)@ + word(x),
{
    let w = u64_to_le_bytes(x);
    out.extend_from_slice(w.as_slice());
    assert(out@ =~= old(out)@ + word(x));
}

fn put_bar(out: &mut Vec<u8>, bar: &PriceBar)
    ensures
        final(out)@ == old(out)@ + bar_bytes(bar@),
{
    let d = bar.date.as_str().as_bytes();
    put_word(out, d.len() as u64);
    out.extend_from_slice(d);
    assert(out@ =~= old(out)@ + word(d@.len() as u64) + d@);
    put_word(out, bar.open);
    put_word(out, bar.high);
    put_word(out, bar.low);
    put_word(out, bar.close);
    put_word(out, bar.volume);
    assert(out@ =~= old(out)@ + bar_bytes(bar@));
}

proof fn lemma_bars_bytes_push(s: Seq<BarModel>, b: BarModel)
    ensures
        bars_bytes(s.push(b)) == bars_bytes(s) + bar_bytes(b),
    decreases s.len(),
{
    if s.len() == 0 {
        assert(s.push(b).drop_first() =~= Seq::<BarModel>::empty());
        assert(bars_bytes(s.push(b).drop_first()) =~= Seq::<u8>::empty());
        assert(bars_bytes(s.push(b)) =~= bars_bytes(s) + bar_bytes(b));
    } else {
        assert(s.push(b).drop_first() =~= s.drop_first().push(b));
        lemma_bars_bytes_push(s.drop_first(), b);
        assert(bars_bytes(s.push(b)) =~= bars_bytes(s) + bar_bytes(b));
    }
}

/// Writes the archive that holds `bars`, in their order.
pub fn encode(bars: &Vec<PriceBar>) -> (out: Vec<u8>)
    ensures
        out@ == archive_bytes(models(bars@)),
{
    let mut out: Vec<u8> = Vec::new();
    out.push(80u8);
    out.push(66u8);
    out.push(65u8);
    out.push(1u8);
    assert(out@ =~= format_tag());
    put_word(&mut out, bars.len() as u64);
    let ghost all = models(bars@);
    let ghost head = out@;
    let mut i: usize = 0;
    assert(all.take(0) =~= Seq::<BarModel>::empty());
    while i < bars.len()
        invariant
            i <= bars.len(),
            all == models(bars@),
            head == format_tag() + word(bars.len() as u64),
            out@ == head + bars_bytes(all.take(i as int)),
        decreases bars.len() - i,
    {
        put_bar(&mut out, &bars[i]);
        proof {
            lemma_bars_bytes_push(all.take(i as int), bars[i as int]@);
            assert(all.take(i + 1) =~= all.take(i as int).push(bars[i as int]@));
            assert(out@ =~= head + bars_bytes(all.take(i + 1)));
        }
        i += 1;
    }
    assert(all.take(i as int) =~= all);
    out
}

fn get_word(bytes: &[u8], pos: usize) -> (x: u64)
    requires
        pos + 8 <= bytes@.len(),
    ensures
        x == read_word(bytes@, pos as int),
{
    let total = bytes.len();
    assert(pos + 8 <= total);
    u64_from_le_bytes(slice_subrange(bytes, pos, pos + 8))
}

/// Reads the record at `pos`.
fn read_bar(bytes: &[u8], pos: usize) -> (r: Option<(PriceBar, usize)>)
    requires
        pos <= bytes@.len(),
    ensures
        match r {
            Some((bar, next)) => parse_bar(bytes@, pos as int) == Some((bar@, next as int))
                && next <= bytes@.len(),
            None => parse_bar(bytes@, pos as int) is None,
        },
{
    let total = bytes.len();
    if total - pos < 8 {
        return None;
    }
    let n = get_word(bytes, pos);
    let room = total - pos - 8;
    if room < 40 || n > (room - 40) as u64 {
        return None;
    }
    let start = pos + 8;
    let p = start + n as usize;
    let date = match text_from_utf8(slice_to_vec(slice_subrange(bytes, start, p))) {
        Some(s) => s,
        None => {
            return None;
        },
    };
    let bar = PriceBar {
        date,
        open: get_word(bytes, p),
        high: get_word(bytes, p + 8),
        low: get_word(bytes, p + 16),
        close: get_word(bytes, p + 24),
        volume: get_word(bytes, p + 32),
    };
    if bar.is_finite() {
        Some((bar, p + 40))
    } else {
        None
    }
}

/// Reads an archive back. Fails on anything that `encode` cannot have
/// written for bars with finite numbers: another tag or version, a count or a
/// length that runs past the end, bytes left over, a date that is not UTF-8,
/// a number that is an infinity or a NaN. The error says where reading stopped.
pub fn decode(bytes: &[u8]) -> (r: Result<Vec<PriceBar>, PipelineError>)
    ensures
        match r {
            Ok(bars) => parse_archive(bytes@) == Some(models(bars@)),
            Err(e) => parse_archive(bytes@) is None && e@ == (ErrorModel::CorruptArchive {
                offset: archive_stop(bytes@),
            }),
        },
{
    if bytes.len() < 12 {
        return Err(PipelineError::CorruptArchive { offset: 0 });
    }
    if bytes[0] != 80u8 || bytes[1] != 66u8 || bytes[2] != 65u8 || bytes[3] != 1u8 {
        assert(bytes@.subrange(0, 4)[0] == bytes@[0]);
        assert(bytes@.subrange(0, 4)[1] == bytes@[1]);
        assert(bytes@.subrange(0, 4)[2] == bytes@[2]);
        assert(bytes@.subrange(0, 4)[3] == bytes@[3]);
        return Err(PipelineError::CorruptArchive { offset: 0 });
    }
    assert(bytes@.subrange(0, 4) =~= format_tag());
    let count = get_word(bytes, 4);
    let mut out: Vec<PriceBar> = Vec::new();
    let mut pos: usize = 12;
    let mut left: u64 = count;
    assert(models(out@) =~= Seq::<BarModel>::empty());
    assert(parse_bars(bytes@, 12, count as nat) == prepend(
        models(out@),
        parse_bars(bytes@, 12, count as nat),
    )) by {
        let t = parse_bars(bytes@, 12, count as nat);
        if t is Some {
            assert(models(out@) + t.unwrap().0 =~= t.unwrap().0);
        }
    };
    while left > 0
        invariant
            12 <= pos <= bytes@.len(),
            bytes@.subrange(0, 4) == format_tag(),
            count == read_word(bytes@, 4),
            parse_bars(bytes@, 12, count as nat) == prepend(
                models(out@),
                parse_bars(bytes@, pos as int, left as nat),
            ),
            bars_stop(bytes@, 12, count as nat) == bars_stop(bytes@, pos as int, left as nat),
        decreases left,
    {
        match read_bar(bytes, pos) {
            None => {
                return Err(PipelineError::CorruptArchive { offset: pos });
            },
            Some((bar, next)) => {
                proof {
                    let tail = parse_bars(bytes@, next as int, (left - 1) as nat);
                    if tail is Some {
                        assert(models(out@) + (seq![bar@] + tail.unwrap().0) =~= models(out@.push(bar))
                            + tail.unwrap().0);
                    }
                }
                out.push(bar);
                pos = next;
                left = left - 1;
            },
        }
    }
    if pos != bytes.len() {
        return Err(PipelineError::CorruptArchive { offset: pos });
    }
    assert(models(out@) + Seq::<BarModel>::empty() =~= models(out@));
    Ok(out)
}

proof fn lemma_word_at(bytes: Seq<u8>, pos: int, x: u64)
    requires
        0 <= pos,
        pos + 8 <= bytes.len(),
        bytes.subrange(pos, pos + 8) == word(x),
    ensures
        read_word(bytes, pos) == x,
{
    lemma_auto_spec_u64_to_from_le_bytes();
}

proof fn lemma_bar_len(b: BarModel)
    ensures
        bar_bytes(b).len() == encode_utf8(b.date).len() + 48,
{
    lemma_auto_spec_u64_to_from_le_bytes();
}

proof fn lemma_parse_bar(bytes: Seq<u8>, pos: int, b: BarModel)
    requires
        storable(b),
        0 <= pos,
        pos + bar_bytes(b).len() <= bytes.len(),
        bytes.subrange(pos, pos + bar_bytes(b).len()) == bar_bytes(b),
    ensures
        parse_bar(bytes, pos) == Some((b, pos + bar_bytes(b).len())),
{
    lemma_auto_spec_u64_to_from_le_bytes();
    lemma_bar_len(b);
    encode_utf8_valid_utf8(b.date);
    encode_utf8_decode_utf8(b.date);
    let d = encode_utf8(b.date);
    let n = d.len() as int;
    let whole = bar_bytes(b);
    let p = pos + 8 + n;
    assert(bytes.subrange(pos, pos + 8) =~= whole.subrange(0, 8));
    assert(whole.subrange(0, 8) =~= word(n as u64));
    lemma_word_at(bytes, pos, n as u64);
    assert(bytes.subrange(pos + 8, p) =~= whole.subrange(8, 8 + n));
    assert(whole.subrange(8, 8 + n) =~= d);
    assert(bytes.subrange(p, p + 8) =~= whole.subrange(8 + n, 16 + n));
    assert(whole.subrange(8 + n, 16 + n) =~= word(b.open));
    lemma_word_at(bytes, p, b.open);
    assert(bytes.subrange(p + 8, p + 16) =~= whole.subrange(16 + n, 24 + n));
    assert(whole.subrange(16 + n, 24 + n) =~= word(b.high));
    lemma_word_at(bytes, p + 8, b.high);
    assert(bytes.subrange(p + 16, p + 24) =~= whole.subrange(24 + n, 32 + n));
    assert(whole.subrange(24 + n, 32 + n) =~= word(b.low));
    lemma_word_at(bytes, p + 16, b.low);
    assert(bytes.subrange(p + 24, p + 32) =~= whole.subrange(32 + n, 40 + n));
    assert(whole.subrange(32 + n, 40 + n) =~= word(b.close));
    lemma_word_at(bytes, p + 24, b.close);
    assert(bytes.subrange(p + 32, p + 40) =~= whole.subrange(40 + n, 48 + n));
    assert(whole.subrange(40 + n, 48 + n) =~= word(b.volume));
    lemma_word_at(bytes, p + 32, b.volume);
}

proof fn lemma_parse_bars(bytes: Seq<u8>, pos: int, s: Seq<BarModel>)
    requires
        forall|i: int| 0 <= i < s.len() ==> storable(#[trigger] s[i]),
        0 <= pos,
        pos + bars_bytes(s).len() <= bytes.len(),
        bytes.subrange(pos, pos + bars_bytes(s).len()) == bars_bytes(s),
    ensures
        parse_bars(bytes, pos, s.len()) == Some((s, pos + bars_bytes(s).len())),
    decreases s.len(),
{
    if s.len() == 0 {
        assert(s =~= Seq::<BarModel>::empty());
    } else {
        let b = s.first();
        let rest = s.drop_first();
        let k = bar_bytes(b).len() as int;
        let whole = bars_bytes(s);
        assert(whole == bar_bytes(b) + bars_bytes(rest));
        assert(bytes.subrange(pos, pos + k) =~= whole.subrange(0, k));
        assert(whole.subrange(0, k) =~= bar_bytes(b));
        lemma_parse_bar(bytes, pos, b);
        assert(bytes.subrange(pos + k, pos + k + bars_bytes(rest).len()) =~= whole.subrange(
            k,
            whole.len() as int,
        ));
        assert(whole.subrange(k, whole.len() as int) =~= bars_bytes(rest));
        assert forall|i: int| 0 <= i < rest.len() implies storable(#[trigger] rest[i]) by {
            assert(rest[i] == s[i + 1]);
        };
        lemma_parse_bars(bytes, pos + k, rest);
        assert(seq![b] + rest =~= s);
    }
}

proof fn lemma_bar_sound(bytes: Seq<u8>, pos: int)
    requires
        parse_bar(bytes, pos) is Some,
    ensures
        storable(parse_bar(bytes, pos).unwrap().0),
        pos < parse_bar(bytes, pos).unwrap().1 <= bytes.len(),
        bytes.subrange(pos, parse_bar(bytes, pos).unwrap().1) == bar_bytes(
            parse_bar(bytes, pos).unwrap().0,
        ),
{
    lemma_auto_spec_u64_to_from_le_bytes();
    let (b, next) = parse_bar(bytes, pos).unwrap();
    let n = read_word(bytes, pos) as int;
    let p = pos + 8 + n;
    let d = bytes.subrange(pos + 8, p);
    decode_utf8_encode_utf8(d);
    assert(word(n as u64) == bytes.subrange(pos, pos + 8));
    assert(word(b.open) == bytes.subrange(p, p + 8));
    assert(word(b.high) == bytes.subrange(p + 8, p + 8 + 8));
    assert(word(b.low) == bytes.subrange(p + 16, p + 16 + 8));
    assert(word(b.close) == bytes.subrange(p + 24, p + 24 + 8));
    assert(word(b.volume) == bytes.subrange(p + 32, p + 32 + 8));
    assert(bytes.subrange(pos, next) =~= bar_bytes(b));
}

proof fn lemma_bars_sound(bytes: Seq<u8>, pos: int, n: nat)
    requires
        0 <= pos <= bytes.len(),
        parse_bars(bytes, pos, n) is Some,
    ensures
        parse_bars(bytes, pos, n).unwrap().0.len() == n,
        forall|i: int| 0 <= i < n ==> storable(#[trigger] parse_bars(bytes, pos, n).unwrap().0[i]),
        pos <= parse_bars(bytes, pos, n).unwrap().1 <= bytes.len(),
        bytes.subrange(pos, parse_bars(bytes, pos, n).unwrap().1) == bars_bytes(
            parse_bars(bytes, pos, n).unwrap().0,
        ),
    decreases n,
{
    let (s, end) = parse_bars(bytes, pos, n).unwrap();
    if n == 0 {
        assert(bytes.subrange(pos, end) =~= bars_bytes(s));
    } else {
        let (b, next) = parse_bar(bytes, pos).unwrap();
        lemma_bar_sound(bytes, pos);
        lemma_bars_sound(bytes, next, (n - 1) as nat);
        let rest = parse_bars(bytes, next, (n - 1) as nat).unwrap().0;
        assert(s == seq![b] + rest);
        assert(s.first() == b);
        assert(s.drop_first() =~= rest);
        assert(bytes.subrange(pos, end) =~= bytes.subrange(pos, next) + bytes.subrange(next, end));
        assert forall|i: int| 0 <= i < n implies storable(#[trigger] s[i]) by {
            if i > 0 {
                assert(s[i] == rest[i - 1]);
            }
        };
    }
}

/// What reads as an archive is the archive of what was read: bars with
/// finite numbers, written in this format and no other way.
pub proof fn lemma_encode_decode(bytes: Seq<u8>)
    requires
        parse_archive(bytes) is Some,
    ensures
        archive_bytes(parse_archive(bytes).unwrap()) == bytes,
        forall|i: int|
            0 <= i < parse_archive(bytes).unwrap().len() ==> storable(
                #[trigger] parse_archive(bytes).unwrap()[i],
            ),
{
    lemma_auto_spec_u64_to_from_le_bytes();
    let n = read_word(bytes, 4);
    lemma_bars_sound(bytes, 12, n as nat);
    let s = parse_archive(bytes).unwrap();
    assert(word(n) == bytes.subrange(4, 12));
    assert(s.len() as u64 == n);
    assert(archive_bytes(s) =~= bytes.subrange(0, 4) + bytes.subrange(4, 12) + bytes.subrange(
        12,
        bytes.len() as int,
    ));
    assert(archive_bytes(s) =~= bytes);
}

proof fn lemma_bars_span(bytes: Seq<u8>, pos: int, n: nat)
    requires
        parse_bars(bytes, pos, n) is Some,
    ensures
        parse_bars(bytes, pos, n).unwrap().1 >= pos + 48 * n,
    decreases n,
{
    if n > 0 {
        let next = parse_bar(bytes, pos).unwrap().1;
        lemma_bars_span(bytes, next, (n - 1) as nat);
    }
}

/// Truncation: every record takes 48 bytes or more, so bytes too few for the
/// count that the header declares are no archive.
pub proof fn lemma_truncated_is_corrupt(bytes: Seq<u8>)
    requires
        bytes.len() < 12 + 48 * read_word(bytes, 4),
    ensures
        parse_archive(bytes) is None,
{
    let n = read_word(bytes, 4) as nat;
    if bytes.len() >= 12 && parse_bars(bytes, 12, n) is Some {
        lemma_bars_span(bytes, 12, n);
    }
}

/// Round trip: reading back the archive written for bars with finite numbers
/// gives exactly those bars, in their order.
pub proof fn lemma_decode_encode(s: Seq<BarModel>)
    requires
        s.len() <= u64::MAX,
        forall|i: int| 0 <= i < s.len() ==> storable(#[trigger] s[i]),
    ensures
        parse_archive(archive_bytes(s)) == Some(s),
{
    lemma_auto_spec_u64_to_from_le_bytes();
    let bytes = archive_bytes(s);
    assert(bytes.subrange(0, 4) =~= format_tag());
    assert(bytes.subrange(4, 12) =~= word(s.len() as u64));
    lemma_word_at(bytes, 4, s.len() as u64);
    assert(bytes.subrange(12, 12 + bars_bytes(s).len() as int) =~= bars_bytes(s));
    lemma_parse_bars(bytes, 12, s);
}

} // verus!
