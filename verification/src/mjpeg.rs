use vstd::prelude::*;

verus! {

/// ASCII decimal representation of `n`, without leading zeros.
pub open spec fn decimal(n: nat) -> Seq<u8>
    decreases n,
{
    if n < 10 {
        seq![(48 + n) as u8]
    } else {
        decimal(n / 10).push((48 + n % 10) as u8)
    }
}

/// The number that a string of ASCII decimal digits spells.
pub open spec fn parse_decimal(s: Seq<u8>) -> int
    decreases s.len(),
{
    if s.len() == 0 {
        0
    } else {
        parse_decimal(s.drop_last()) * 10 + (s.last() - 48)
    }
}

/// Every byte is an ASCII digit.
pub open spec fn all_digits(s: Seq<u8>) -> bool {
    forall|i: int| 0 <= i < s.len() ==> 48 <= #[trigger] s[i] <= 57
}

/// Reading back the decimal representation of `n` gives `n`; it is made of digits only and
/// has no leading zero.
pub proof fn lemma_decimal_roundtrip(n: nat)
    ensures
        parse_decimal(decimal(n)) == n,
        all_digits(decimal(n)),
        decimal(n).len() >= 1,
        n >= 10 ==> decimal(n).len() >= 2,
        decimal(n).len() > 1 ==> decimal(n)[0] != 48,
    decreases n,
{
    if n >= 10 {
        lemma_decimal_roundtrip(n / 10);
        let d = decimal(n / 10);
        assert(decimal(n).drop_last() =~= d);
        assert forall|i: int| 0 <= i < decimal(n).len() implies 48 <= #[trigger] decimal(n)[i]
            <= 57 by {
            if i < d.len() {
                assert(decimal(n)[i] == d[i]);
            }
        }
        assert(decimal(n)[0] == d[0]);
        assert(decimal(n).last() == (48 + n % 10) as u8);
        assert((n / 10) * 10 + n % 10 == n);
        if n / 10 < 10 {
            assert(d[0] == (48 + n / 10) as u8);
        }
        assert(parse_decimal(decimal(n)) == parse_decimal(d) * 10 + (decimal(n).last() - 48));
    } else {
        assert(decimal(n).drop_last() =~= Seq::<u8>::empty());
        assert(parse_decimal(decimal(n)) == parse_decimal(Seq::<u8>::empty()) * 10 + (decimal(
            n,
        ).last() - 48));
    }
}

/// Bytes that open a part of the MJPEG multipart stream, up to its length:
/// `--frame\r\nContent-Length: `.
pub open spec fn part_head() -> Seq<u8> {
    seq![
        45u8, 45u8, 102u8, 114u8, 97u8, 109u8, 101u8, 13u8, 10u8, 67u8, 111u8, 110u8, 116u8, 101u8,
        110u8, 116u8, 45u8, 76u8, 101u8, 110u8, 103u8, 116u8, 104u8, 58u8, 32u8,
    ]
}

/// Bytes between a part's length and its JPEG data: `\r\nContent-Type: image/jpeg\r\n\r\n`.
pub open spec fn part_type() -> Seq<u8> {
    seq![
        13u8, 10u8, 67u8, 111u8, 110u8, 116u8, 101u8, 110u8, 116u8, 45u8, 84u8, 121u8, 112u8, 101u8,
        58u8, 32u8, 105u8, 109u8, 97u8, 103u8, 101u8, 47u8, 106u8, 112u8, 101u8, 103u8, 13u8, 10u8,
        13u8, 10u8,
    ]
}

/// One part of the MJPEG stream carrying the JPEG `frame`.
pub open spec fn part_bytes(frame: Seq<u8>) -> Seq<u8> {
    part_head() + decimal(frame.len()) + part_type() + frame
}

/// A part of the stream reads back as the frame it carries: it opens with the fixed head,
/// its length field spells the frame's length in decimal, the content type follows, and the
/// rest of the part is exactly the frame.
pub proof fn lemma_part_roundtrip(frame: Seq<u8>)
    ensures
        ({
            let p = part_bytes(frame);
            let n = decimal(frame.len()).len() as int;
            &&& p.subrange(0, 25) == part_head()
            &&& all_digits(p.subrange(25, 25 + n))
            &&& parse_decimal(p.subrange(25, 25 + n)) == frame.len()
            &&& p.subrange(25 + n, 55 + n) == part_type()
            &&& p.subrange(55 + n, p.len() as int) == frame
        }),
{
    lemma_decimal_roundtrip(frame.len());
    let p = part_bytes(frame);
    let d = decimal(frame.len());
    let n = d.len() as int;
    assert(part_head().len() == 25);
    assert(part_type().len() == 30);
    assert(p.subrange(0, 25) =~= part_head());
    assert(p.subrange(25, 25 + n) =~= d);
    assert(p.subrange(25 + n, 55 + n) =~= part_type());
    assert(p.subrange(55 + n, p.len() as int) =~= frame);
}

/// ASCII decimal representation of `n`.
pub fn decimal_bytes(n: usize) -> (v: Vec<u8>)
    ensures
        v@ == decimal(n as nat),
    decreases n,
{
    if n < 10 {
        let mut v: Vec<u8> = Vec::new();
        v.push((48 + n) as u8);
        v
    } else {
        let mut v = decimal_bytes(n / 10);
        v.push((48 + n % 10) as u8);
        v
    }
}

fn push_all(v: &mut Vec<u8>, s: &[u8])
    ensures
        final(v)@ == old(v)@ + s@,
{
    let mut i: usize = 0;
    while i < s.len()
        invariant
            i <= s@.len(),
            v@ == old(v)@ + s@.take(i as int),
        decreases s@.len() - i,
    {
        v.push(s[i]);
        proof {
            assert(s@.take(i + 1) =~= s@.take(i as int).push(s@[i as int]));
        }
        i = i + 1;
    }
    proof {
        assert(s@.take(i as int) =~= s@);
    }
}

/// The bytes of one part of the MJPEG stream for the latest frame, or nothing when no frame
/// is available yet.
pub fn multipart_frame(frame: Option<&[u8]>) -> (bytes: Vec<u8>)
    ensures
        bytes@ == match frame {
            Some(f) => part_bytes(f@),
            None => Seq::<u8>::empty(),
        },
{
    match frame {
        Some(f) => {
            let mut bytes = vec![
                45u8, 45u8, 102u8, 114u8, 97u8, 109u8, 101u8, 13u8, 10u8, 67u8, 111u8, 110u8, 116u8,
                101u8, 110u8, 116u8, 45u8, 76u8, 101u8, 110u8, 103u8, 116u8, 104u8, 58u8, 32u8,
            ];
            let len = decimal_bytes(f.len());
            push_all(&mut bytes, len.as_slice());
            let ty = vec![
                13u8, 10u8, 67u8, 111u8, 110u8, 116u8, 101u8, 110u8, 116u8, 45u8, 84u8, 121u8, 112u8,
                101u8, 58u8, 32u8, 105u8, 109u8, 97u8, 103u8, 101u8, 47u8, 106u8, 112u8, 101u8, 103u8,
                13u8, 10u8, 13u8, 10u8,
            ];
            push_all(&mut bytes, ty.as_slice());
            push_all(&mut bytes, f);
            proof {
                assert(bytes@ =~= part_bytes(f@));
            }
            bytes
        },
        None => Vec::new(),
    }
}

} // verus!
