//! Decimal numbers in byte strings, and the `;`-separated fields that hold
//! them in terminal control sequences.
use vstd::prelude::*;

verus! {

/// The fields of `s` between `;` separators: `str::split(';')`.
pub open spec fn split_fields(s: Seq<u8>) -> Seq<Seq<u8>>
    decreases s.len(),
{
    if s.len() == 0 {
        seq![Seq::empty()]
    } else {
        let f = split_fields(s.drop_last());
        if s.last() == 0x3b {
            f.push(Seq::empty())
        } else {
            f.update(f.len() - 1, f.last().push(s.last()))
        }
    }
}

pub open spec fn byte_digits(s: Seq<u8>) -> bool {
    forall|i: int| 0 <= i < s.len() ==> 0x30 <= #[trigger] s[i] <= 0x39
}

/// The number that ASCII decimal digits write.
pub open spec fn byte_decimal(s: Seq<u8>) -> int
    decreases s.len(),
{
    if s.len() == 0 {
        0
    } else {
        byte_decimal(s.drop_last()) * 10 + (s.last() - 0x30)
    }
}

/// What `u16::from_str` reads from `s`: an optional `+`, then one or more
/// digits, of value at most 65535.
pub open spec fn parsed_u16(s: Seq<u8>) -> Option<u16> {
    let d = if s.len() > 0 && s[0] == 0x2b { s.skip(1) } else { s };
    if d.len() >= 1 && byte_digits(d) && byte_decimal(d) <= 65535 {
        Some(byte_decimal(d) as u16)
    } else {
        None
    }
}

pub proof fn lemma_split_fields_nonempty(s: Seq<u8>)
    ensures
        split_fields(s).len() >= 1,
    decreases s.len(),
{
    if s.len() > 0 {
        lemma_split_fields_nonempty(s.drop_last());
    }
}

pub open spec fn byte_views(v: Seq<Vec<u8>>) -> Seq<Seq<u8>> {
    v.map_values(|b: Vec<u8>| b@)
}

/// The fields of `s[start..end]` between `;` separators.
pub fn fields_between(s: &Vec<u8>, start: usize, end: usize) -> (fields: Vec<Vec<u8>>)
    requires
        start <= end <= s.len(),
    ensures
        byte_views(fields@) == split_fields(s@.subrange(start as int, end as int)),
{
    let mut done: Vec<Vec<u8>> = Vec::new();
    let mut current: Vec<u8> = Vec::new();
    let mut i = start;
    assert(s@.subrange(start as int, start as int) =~= Seq::<u8>::empty());
    assert(byte_views(done@).push(current@) =~= seq![Seq::<u8>::empty()]);
    while i < end
        invariant
            start <= i <= end <= s.len(),
            byte_views(done@).push(current@) == split_fields(s@.subrange(start as int, i as int)),
        decreases end - i,
    {
        let ghost sub = s@.subrange(start as int, i + 1);
        assert(sub.drop_last() =~= s@.subrange(start as int, i as int));
        assert(sub.last() == s@[i as int]);
        if s[i] == 0x3b {
            let mut fresh: Vec<u8> = Vec::new();
            std::mem::swap(&mut fresh, &mut current);
            done.push(fresh);
            assert(byte_views(done@).push(current@) =~= split_fields(sub));
        } else {
            current.push(s[i]);
            assert(byte_views(done@).push(current@) =~= split_fields(sub));
        }
        i += 1;
    }
    done.push(current);
    assert(byte_views(done@) =~= split_fields(s@.subrange(start as int, end as int)));
    done
}

pub proof fn lemma_byte_decimal_nonneg(s: Seq<u8>)
    requires
        byte_digits(s),
    ensures
        byte_decimal(s) >= 0,
    decreases s.len(),
{
    if s.len() > 0 {
        lemma_byte_decimal_nonneg(s.drop_last());
    }
}

/// `u16::from_str` on bytes.
pub fn read_u16(f: &Vec<u8>) -> (r: Option<u16>)
    ensures
        r == parsed_u16(f@),
{
    let mut i: usize = 0;
    if f.len() > 0 && f[0] == 0x2b {
        i = 1;
    }
    let ghost d = f@.skip(i as int);
    assert(d == (if f@.len() > 0 && f@[0] == 0x2b { f@.skip(1) } else { f@ }));
    if i == f.len() {
        return None;
    }
    // The value so far, held at 100000 once it is past what a `u16` holds.
    let mut value: u32 = 0;
    let mut j = i;
    while j < f.len()
        invariant
            i <= j <= f@.len(),
            i < f@.len(),
            d == f@.skip(i as int),
            parsed_u16(f@) == (if byte_digits(d) && byte_decimal(d) <= 65535 {
                Some(byte_decimal(d) as u16)
            } else {
                None
            }),
            byte_digits(f@.subrange(i as int, j as int)),
            value <= 100000,
            value == (if byte_decimal(f@.subrange(i as int, j as int)) <= 100000 {
                byte_decimal(f@.subrange(i as int, j as int))
            } else {
                100000
            }),
        decreases f.len() - j,
    {
        let c = f[j];
        if !(0x30 <= c && c <= 0x39) {
            assert(d[j - i] == c);
            assert(!byte_digits(d));
            return None;
        }
        let ghost before = f@.subrange(i as int, j as int);
        let ghost after = f@.subrange(i as int, j + 1);
        assert(after.drop_last() =~= before);
        proof {
            lemma_byte_decimal_nonneg(before);
        }
        let next = value * 10 + (c as u32 - 0x30);
        value = if next > 100000 { 100000 } else { next };
        j += 1;
    }
    assert(f@.subrange(i as int, j as int) =~= d);
    if value <= 65535 {
        Some(value as u16)
    } else {
        None
    }
}


}
