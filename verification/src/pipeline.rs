//! The decisions inside a mixing pipeline: which RTP payload types it
//! accepts and with what capabilities, which of the receiver's source pads
//! it links into the mix, and what it does on each message of its bus.
//!
//! The media elements themselves are built and run by the caller.

use vstd::prelude::*;

verus! {

/// The capabilities announced for an RTP payload type.
#[derive(Debug)]
pub struct RtpCaps {
    pub media: String,
    pub clock_rate: i32,
    pub encoding_name: String,
}

/// The capabilities the receiver is told for a payload type: Opus audio at
/// 48 kHz for type 100, VP8 video at 90 kHz for type 106, none otherwise.
pub fn caps_for_payload_type(pt: u32) -> (caps: Option<RtpCaps>)
    ensures
        pt == 100 ==> (caps matches Some(c) && c.media@ == "audio"@ && c.clock_rate == 48000
            && c.encoding_name@ == "OPUS"@),
        pt == 106 ==> (caps matches Some(c) && c.media@ == "video"@ && c.clock_rate == 90000
            && c.encoding_name@ == "VP8"@),
        pt != 100 && pt != 106 ==> caps is None,
{
    if pt == 100 {
        Some(
            RtpCaps {
                media: String::from_str("audio"),
                clock_rate: 48000,
                encoding_name: String::from_str("OPUS"),
            },
        )
    } else if pt == 106 {
        Some(
            RtpCaps {
                media: String::from_str("video"),
                clock_rate: 90000,
                encoding_name: String::from_str("VP8"),
            },
        )
    } else {
        None
    }
}

/// The capabilities that the standalone receiver tells its RTP bin for a
/// payload type: Opus audio at 48 kHz for type 100, VP8 video at 90 kHz for
/// type 96, none otherwise.
pub fn standalone_caps_for_payload_type(pt: u32) -> (caps: Option<RtpCaps>)
    ensures
        pt == 100 ==> (caps matches Some(c) && c.media@ == "audio"@ && c.clock_rate == 48000
            && c.encoding_name@ == "OPUS"@),
        pt == 96 ==> (caps matches Some(c) && c.media@ == "video"@ && c.clock_rate == 90000
            && c.encoding_name@ == "VP8"@),
        pt != 100 && pt != 96 ==> caps is None,
{
    if pt == 100 {
        Some(
            RtpCaps {
                media: String::from_str("audio"),
                clock_rate: 48000,
                encoding_name: String::from_str("OPUS"),
            },
        )
    } else if pt == 96 {
        Some(
            RtpCaps {
                media: String::from_str("video"),
                clock_rate: 90000,
                encoding_name: String::from_str("VP8"),
            },
        )
    } else {
        None
    }
}

/// Why a source pad is not linked into the mix.
#[derive(Debug, Clone, Copy, PartialEq, Eq, Structural)]
pub enum PadError {
    /// The payload-type field of the pad's name is not a number that fits
    /// in 32 bits.
    InvalidPayloadType,
    /// The pad carries a payload type other than Opus audio (100).
    UnknownPayloadType(u32),
}

/// The fields of `s` between the underscores, first to last (one empty field
/// for an empty `s`).
pub open spec fn split_fields(s: Seq<char>) -> Seq<Seq<char>>
    decreases s.len(),
{
    if s.len() == 0 {
        seq![Seq::<char>::empty()]
    } else {
        let f = split_fields(s.drop_last());
        if s.last() == '_' {
            f.push(Seq::<char>::empty())
        } else {
            f.update(f.len() - 1, f.last().push(s.last()))
        }
    }
}

/// Splitting at underscores: a piece with no underscore is one field, and
/// an underscore followed by such a piece adds that piece as one more field
/// after the fields of what comes before.
pub proof fn lemma_split_fields_appends(s: Seq<char>, f: Seq<char>)
    requires
        !f.contains('_'),
    ensures
        split_fields(f) == seq![f],
        split_fields(s + seq!['_'] + f) == split_fields(s).push(f),
    decreases f.len(),
{
    if f.len() == 0 {
        assert(f =~= Seq::<char>::empty());
        let t = s + seq!['_'] + f;
        assert(t =~= s.push('_'));
        assert(t.drop_last() =~= s);
        assert(t.last() == '_');
        assert(split_fields(t) == split_fields(s).push(Seq::<char>::empty()));
    } else {
        let g = f.drop_last();
        assert(!g.contains('_')) by {
            if g.contains('_') {
                let k = choose|k: int| 0 <= k < g.len() && g[k] == '_';
                assert(f[k] == '_');
            }
        }
        assert(f.last() != '_') by {
            assert(f[f.len() - 1] == f.last());
        }
        lemma_split_fields_appends(s, g);
        assert((s + seq!['_'] + f).drop_last() =~= s + seq!['_'] + g);
        assert((s + seq!['_'] + f).last() == f.last());
        assert(g.push(f.last()) =~= f);
        assert(f.drop_last() == g);
        let sf = split_fields(s + seq!['_'] + g);
        assert(split_fields(s + seq!['_'] + f) == sf.update(sf.len() - 1, sf.last().push(f.last())));
        assert(split_fields(s + seq!['_'] + f) =~= split_fields(s).push(f));
        assert(split_fields(f) == seq![g].update(0, g.push(f.last())));
        assert(split_fields(f) =~= seq![f]);
    }
}

/// The value of a string of decimal digits.
pub open spec fn decimal_value(d: Seq<char>) -> nat
    decreases d.len(),
{
    if d.len() == 0 {
        0
    } else {
        decimal_value(d.drop_last()) * 10 + ((d.last() as nat) - ('0' as nat)) as nat
    }
}

/// Every character of `d` is a decimal digit.
pub open spec fn all_digits(d: Seq<char>) -> bool {
    forall|i: int| 0 <= i < d.len() ==> '0' <= #[trigger] d[i] <= '9'
}

/// What reading `f` as an unsigned 32-bit decimal number gives: an optional
/// `+`, then one or more digits whose value fits in 32 bits.
pub open spec fn parse_u32(f: Seq<char>) -> Option<u32> {
    let d = if f.len() > 0 && f[0] == '+' {
        f.drop_first()
    } else {
        f
    };
    if d.len() > 0 && all_digits(d) && decimal_value(d) <= u32::MAX {
        Some(decimal_value(d) as u32)
    } else {
        None
    }
}

/// The payload type that the receiver's source pad `name` carries (the
/// sixth underscore-separated field of its name), when it is one that the
/// mix takes: Opus audio, type 100. The name must have at least six fields.
pub fn linked_payload_type(name: &str) -> (res: Result<u32, PadError>)
    requires
        split_fields(name@).len() >= 6,
    ensures
        match parse_u32(split_fields(name@)[5]) {
            None => res == Err::<u32, PadError>(PadError::InvalidPayloadType),
            Some(pt) => if pt == 100 {
                res == Ok::<u32, PadError>(100)
            } else {
                res == Err::<u32, PadError>(PadError::UnknownPayloadType(pt))
            },
        },
{
    let field = pad_name_field(name, 5);
    match parse_decimal_u32(&field) {
        None => Err(PadError::InvalidPayloadType),
        Some(pt) => if pt == 100 {
            Ok(100)
        } else {
            Err(PadError::UnknownPayloadType(pt))
        },
    }
}

/// The field number `k` (from zero) of `name` between underscores, or
/// nothing when there are fewer fields.
fn pad_name_field(name: &str, k: usize) -> (field: Vec<char>)
    requires
        k < usize::MAX,
    ensures
        k < split_fields(name@).len() ==> field@ == split_fields(name@)[k as int],
{
    let mut seps: usize = 0;
    let mut field: Vec<char> = Vec::new();
    let ghost s = name@;
    for c in it: name.chars()
        invariant
            it.seq() == s,
            k < usize::MAX,
            0 <= it.index() <= s.len(),
            seps <= k + 1,
            seps <= k ==> seps as int + 1 == split_fields(s.take(it.index())).len(),
            seps == k + 1 ==> split_fields(s.take(it.index())).len() >= k + 2,
            seps < k ==> field@.len() == 0,
            seps == k ==> field@ == split_fields(s.take(it.index())).last(),
            seps > k ==> field@ == split_fields(s.take(it.index()))[k as int],
    {
        let ghost before = s.take(it.index());
        let ghost after = s.take(it.index() + 1);
        proof {
            assert(after.drop_last() =~= before);
            assert(after.last() == c);
            lemma_split_fields_nonempty(before);
        }
        if c == '_' {
            if seps <= k {
                seps = seps + 1;
            }
        } else if seps == k {
            field.push(c);
        }
        proof {
            let f = split_fields(before);
            assert(split_fields(after) == (if c == '_' {
                f.push(Seq::<char>::empty())
            } else {
                f.update(f.len() - 1, f.last().push(c))
            }));
        }
    }
    proof {
        assert(s.take(s.len() as int) =~= s);
    }
    if seps < k {
        Vec::new()
    } else {
        field
    }
}

proof fn lemma_split_fields_nonempty(s: Seq<char>)
    ensures
        split_fields(s).len() >= 1,
    decreases s.len(),
{
    if s.len() > 0 {
        lemma_split_fields_nonempty(s.drop_last());
    }
}

/// Reads `f` as an unsigned 32-bit decimal number: an optional `+`, then
/// one or more digits whose value fits in 32 bits.
fn parse_decimal_u32(f: &Vec<char>) -> (res: Option<u32>)
    ensures
        res == parse_u32(f@),
{
    let mut start: usize = 0;
    if f.len() > 0 && f[0] == '+' {
        start = 1;
    }
    let ghost d = if f@.len() > 0 && f@[0] == '+' {
        f@.drop_first()
    } else {
        f@
    };
    assert(d =~= f@.skip(start as int));
    if start == f.len() {
        return None;
    }
    let mut value: u32 = 0;
    let mut i: usize = start;
    while i < f.len()
        invariant
            start <= i <= f@.len(),
            d == f@.skip(start as int),
            d == (if f@.len() > 0 && f@[0] == '+' {
                f@.drop_first()
            } else {
                f@
            }),
            all_digits(f@.subrange(start as int, i as int)),
            value == decimal_value(f@.subrange(start as int, i as int)),
        decreases f@.len() - i,
    {
        let c = f[i];
        let ghost prefix = f@.subrange(start as int, i as int);
        let ghost next = f@.subrange(start as int, i + 1);
        assert(next.drop_last() =~= prefix);
        assert(next.last() == c);
        if c < '0' || c > '9' {
            assert(!all_digits(d)) by {
                assert(d[i - start] == c);
                assert(!('0' <= d[i - start] <= '9'));
            }
            assert(parse_u32(f@) is None);
            return None;
        }
        let digit: u32 = (c as u32) - ('0' as u32);
        assert(decimal_value(next) == decimal_value(prefix) * 10 + digit);
        if value > (u32::MAX - digit) / 10 {
            proof {
                if all_digits(d) {
                    lemma_decimal_value_monotone(d, (i + 1 - start) as int);
                    assert(d.take((i + 1 - start) as int) =~= next);
                }
            }
            return None;
        }
        value = value * 10 + digit;
        i = i + 1;
        assert(all_digits(next)) by {
            assert forall|j: int| 0 <= j < next.len() implies '0' <= #[trigger] next[j] <= '9' by {
                if j < prefix.len() {
                    assert(next[j] == prefix[j]);
                }
            }
        }
    }
    assert(f@.subrange(start as int, f@.len() as int) =~= d);
    Some(value)
}

/// A string of digits is worth at least as much as any of its prefixes.
proof fn lemma_decimal_value_monotone(d: Seq<char>, n: int)
    requires
        0 <= n <= d.len(),
        all_digits(d),
    ensures
        decimal_value(d) >= decimal_value(d.take(n)),
    decreases d.len(),
{
    if n < d.len() {
        assert(d.drop_last().take(n) =~= d.take(n));
        assert forall|i: int| 0 <= i < d.drop_last().len() implies '0' <= #[trigger] d.drop_last()[i] <= '9' by {
            assert(d.drop_last()[i] == d[i]);
        }
        lemma_decimal_value_monotone(d.drop_last(), n);
        assert(d[d.len() - 1] >= '0');
    } else {
        assert(d.take(n) =~= d);
    }
}

/// The decimal numeral of `v`, written the usual way: most significant
/// digit first, no leading zeros (`0` for zero).
pub open spec fn decimal_numeral(v: nat) -> Seq<char>
    decreases v,
{
    if v < 10 {
        seq![((v + 48) as char)]
    } else {
        decimal_numeral(v / 10).push(((v % 10 + 48) as char))
    }
}

/// A digit appended to a string of digits is worth its face value in the
/// ones place: the value of the rest moves up one place.
pub proof fn lemma_decimal_value_append_digit(d: Seq<char>, c: char)
    requires
        all_digits(d),
        '0' <= c <= '9',
    ensures
        decimal_value(d.push(c)) == decimal_value(d) * 10 + (c as int - 48),
{
    assert(('0' as nat) == 48);
    assert(d.push(c).drop_last() =~= d);
}

/// The value of a string of digits does not depend on leading zeros, and a
/// single digit is worth its face value.
pub proof fn lemma_decimal_value_single_digit(c: char)
    requires
        '0' <= c <= '9',
    ensures
        decimal_value(seq![c]) == c as int - 48,
        decimal_value(seq!['0', c]) == c as int - 48,
{
    assert(('0' as nat) == 48);
    assert(decimal_value(Seq::<char>::empty()) == 0);
    assert(seq![c].drop_last() =~= Seq::<char>::empty());
    assert(decimal_value(seq![c]) == c as int - 48);
    assert(seq!['0'].drop_last() =~= Seq::<char>::empty());
    assert(decimal_value(seq!['0']) == 0);
    assert(seq!['0', c].drop_last() =~= seq!['0']);
}

proof fn lemma_numeral_digits(v: nat)
    ensures
        all_digits(decimal_numeral(v)),
        decimal_numeral(v).len() > 0,
        decimal_value(decimal_numeral(v)) == v,
        decimal_numeral(v)[0] != '+',
    decreases v,
{
    if v < 10 {
        let c = ((v + 48) as char);
        assert(c as int == v + 48);
        assert(('0' as nat) == 48);
        assert(decimal_value(Seq::<char>::empty()) == 0);
        assert(seq![c].drop_last() =~= Seq::<char>::empty());
    } else {
        lemma_numeral_digits(v / 10);
        let d = decimal_numeral(v / 10);
        let c = ((v % 10 + 48) as char);
        assert(c as int == v % 10 + 48);
        assert forall|i: int| 0 <= i < d.push(c).len() implies '0' <= #[trigger] d.push(c)[i] <= '9' by {
            if i < d.len() {
                assert(d.push(c)[i] == d[i]);
            }
        }
        lemma_decimal_value_append_digit(d, c);
        assert(d.push(c)[0] == d[0]);
    }
}

/// Reading the payload type agrees with writing numbers in decimal: the
/// numeral of every 32-bit number reads back as that number, with or without
/// a leading `+`.
pub proof fn lemma_parse_u32_reads_numerals(v: u32)
    ensures
        parse_u32(decimal_numeral(v as nat)) == Some(v),
        parse_u32(seq!['+'] + decimal_numeral(v as nat)) == Some(v),
{
    lemma_numeral_digits(v as nat);
    let d = decimal_numeral(v as nat);
    assert((seq!['+'] + d).drop_first() =~= d);
}

/// A character other than a digit, anywhere after an optional leading `+`,
/// makes the field no number; so does an empty field, or a lone `+`.
pub proof fn lemma_parse_u32_rejects(f: Seq<char>, i: int)
    requires
        0 <= i < f.len(),
        !('0' <= f[i] <= '9'),
        !(i == 0 && f[0] == '+'),
    ensures
        parse_u32(f) is None,
        parse_u32(Seq::<char>::empty()) is None,
        parse_u32(seq!['+']) is None,
{
    let d = if f.len() > 0 && f[0] == '+' { f.drop_first() } else { f };
    if f.len() > 0 && f[0] == '+' {
        assert(d[i - 1] == f[i]);
    } else {
        assert(d[i] == f[i]);
    }
    assert(seq!['+'].drop_first() =~= Seq::<char>::empty());
}

/// What the pipeline's bus reported.
#[derive(Debug, Clone, Copy, PartialEq, Eq, Structural)]
pub enum BusEvent {
    /// The stream ended.
    EndOfStream,
    /// An element failed.
    Error,
    /// An element changed state; whether it is the pipeline itself, and
    /// whether it is now playing.
    StateChanged { is_pipeline: bool, now_playing: bool },
    /// Anything else, which is only logged.
    Other,
}

/// What the pipeline's run loop does about a bus message.
#[derive(Debug, Clone, Copy, PartialEq, Eq, Structural)]
pub enum BusAction {
    /// Stop the pipeline and end the run successfully.
    Finish,
    /// Stop the pipeline and end the run with the element's error.
    Fail,
    /// Write the pipeline's graph out, and go on.
    DumpGraph,
    /// Log the message, and go on.
    Continue,
}

/// The run loop's decision: finish at the end of the stream, fail on an
/// error, write the graph when the pipeline itself starts playing, and go
/// on otherwise.
pub fn on_bus_event(event: BusEvent) -> (action: BusAction)
    ensures
        action == (match event {
            BusEvent::EndOfStream => BusAction::Finish,
            BusEvent::Error => BusAction::Fail,
            BusEvent::StateChanged { is_pipeline, now_playing } => if is_pipeline && now_playing {
                BusAction::DumpGraph
            } else {
                BusAction::Continue
            },
            BusEvent::Other => BusAction::Continue,
        }),
{
    match event {
        BusEvent::EndOfStream => BusAction::Finish,
        BusEvent::Error => BusAction::Fail,
        BusEvent::StateChanged { is_pipeline, now_playing } => if is_pipeline && now_playing {
            BusAction::DumpGraph
        } else {
            BusAction::Continue
        },
        BusEvent::Other => BusAction::Continue,
    }
}

} // verus!
