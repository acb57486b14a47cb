//! Audition files: sixteen-bit stereo WAV.

use crate::ser::{le, le_len, le_reads_back, le_value, pow256_values, W};
use crate::text::{chars_of, push_text, str_eq, string_of};
use vstd::prelude::*;

verus! {

/// Two's complement of a sample.
pub open spec fn bits16(x: i16) -> nat {
    if x >= 0 {
        x as nat
    } else {
        (x + 0x1_0000) as nat
    }
}

/// The samples, two bytes each.
pub open spec fn pcm(samples: Seq<i16>) -> Seq<u8>
    decreases samples.len(),
{
    if samples.len() == 0 {
        Seq::empty()
    } else {
        pcm(samples.drop_last()) + le(bits16(samples.last()), 2)
    }
}

/// The size field of the sample data.
pub open spec fn data_size(samples: Seq<i16>) -> nat {
    (2 * samples.len()) % 0x1_0000_0000
}

/// The header of a stereo file with `n` bytes of samples.
pub open spec fn header_of(n: nat, rate: u32) -> Seq<u8> {
    seq![0x52u8, 0x49, 0x46, 0x46] + le(36 + n, 4) + seq![0x57u8, 0x41, 0x56, 0x45, 0x66, 0x6d, 0x74, 0x20] + le(16, 4) + le(
        1,
        2,
    ) + le(2, 2) + le(rate as nat, 4) + le(rate as nat * 4, 4) + le(4, 2) + le(16, 2) + seq![0x64u8, 0x61, 0x74, 0x61] + le(n, 4)
}

/// The file of some interleaved stereo samples.
pub open spec fn wav_of(samples: Seq<i16>, rate: u32) -> Seq<u8> {
    header_of(data_size(samples), rate) + pcm(samples)
}

fn push_header(w: &mut W, n: u32, rate: u32)
    requires
        36 + n <= u32::MAX,
        rate * 4 <= u32::MAX,
    ensures
        final(w).buf@ == old(w).buf@ + header_of(n as nat, rate),
{
    let ghost base = w.buf@;
    let riff: [u8; 4] = [0x52, 0x49, 0x46, 0x46];
    let wave: [u8; 8] = [0x57, 0x41, 0x56, 0x45, 0x66, 0x6d, 0x74, 0x20];
    let data: [u8; 4] = [0x64, 0x61, 0x74, 0x61];
    proof {
        assert(riff@ =~= seq![0x52u8, 0x49, 0x46, 0x46]);
        assert(wave@ =~= seq![0x57u8, 0x41, 0x56, 0x45, 0x66, 0x6d, 0x74, 0x20]);
        assert(data@ =~= seq![0x64u8, 0x61, 0x74, 0x61]);
    }
    let mut h = W::new();
    h.raw(riff.as_slice());
    proof {
        assert(h.buf@ =~= riff@);
    }
    h.u32(36 + n);
    h.raw(wave.as_slice());
    h.u32(16);
    h.u16(1);
    h.u16(2);
    h.u32(rate);
    h.u32(rate * 4);
    h.u16(4);
    h.u16(16);
    h.raw(data.as_slice());
    h.u32(n);
    w.raw(h.buf.as_slice());
}

/// The WAV file of some interleaved stereo samples.
pub fn wav_file(samples: &[i16], rate: u32) -> (r: Vec<u8>)
    requires
        36 + data_size(samples@) <= u32::MAX,
        rate * 4 <= u32::MAX,
    ensures
        r@ == wav_of(samples@, rate),
{
    let n: u32 = ((samples.len() as u128 * 2) % 0x1_0000_0000) as u32;
    let mut w = W::new();
    push_header(&mut w, n, rate);
    let ghost head = header_of(n as nat, rate);
    let mut i: usize = 0;
    proof {
        assert(w.buf@ =~= head + pcm(samples@.take(0)));
    }
    while i < samples.len()
        invariant
            i <= samples@.len(),
            w.buf@ == head + pcm(samples@.take(i as int)),
        decreases samples@.len() - i,
    {
        let x: i16 = samples[i];
        let ghost before = w.buf@;
        let bits: u16 = if x >= 0 { x as u16 } else { (x as i32 + 0x1_0000) as u16 };
        w.u16(bits);
        proof {
            assert(samples@.take(i + 1).drop_last() =~= samples@.take(i as int));
            assert(w.buf@ =~= head + pcm(samples@.take(i + 1)));
        }
        i = i + 1;
    }
    proof {
        assert(samples@.take(i as int) =~= samples@);
    }
    w.buf
}

/// The file name of a stem.
pub open spec fn stem_title(name: Seq<char>) -> Seq<char> {
    if name == "st_kick"@ {
        "stem_kick"@
    } else if name == "st_snare"@ {
        "stem_snare_hats"@
    } else if name == "st_bass"@ {
        "stem_bass"@
    } else if name == "st_guitars"@ {
        "stem_guitars"@
    } else if name == "st_pads"@ {
        "stem_pads"@
    } else if name == "st_arps"@ {
        "stem_arps_lead"@
    } else if name == "st_psycho"@ {
        "stem_psycho_tension"@
    } else {
        name
    }
}

/// The text without the slashes at its end.
pub open spec fn unslashed(s: Seq<char>) -> Seq<char>
    decreases s.len(),
{
    if s.len() > 0 && s.last() == '/' {
        unslashed(s.drop_last())
    } else {
        s
    }
}

/// Where the file of a stem goes.
pub open spec fn stem_path_of(dir: Seq<char>, name: Seq<char>) -> Seq<char> {
    unslashed(dir) + "/"@ + stem_title(name) + ".wav"@
}

/// The file name of a stem.
pub fn stem_file(name: &str) -> (r: &str)
    ensures
        r@ == stem_title(name@),
{
    if str_eq(name, "st_kick") {
        "stem_kick"
    } else if str_eq(name, "st_snare") {
        "stem_snare_hats"
    } else if str_eq(name, "st_bass") {
        "stem_bass"
    } else if str_eq(name, "st_guitars") {
        "stem_guitars"
    } else if str_eq(name, "st_pads") {
        "stem_pads"
    } else if str_eq(name, "st_arps") {
        "stem_arps_lead"
    } else if str_eq(name, "st_psycho") {
        "stem_psycho_tension"
    } else {
        name
    }
}

/// Where the file of a stem goes.
pub fn stem_path(dir: &str, name: &str) -> (r: String)
    ensures
        r@ == stem_path_of(dir@, name@),
{
    let v: Vec<char> = chars_of(dir);
    let mut n: usize = v.len();
    proof {
        assert(v@.take(n as int) =~= v@);
    }
    while n > 0 && v[n - 1] == '/'
        invariant
            n <= v@.len(),
            unslashed(v@.take(n as int)) == unslashed(v@),
        decreases n,
    {
        proof {
            assert(v@.take(n as int).drop_last() =~= v@.take(n - 1));
        }
        n = n - 1;
    }
    let mut out: String = string_of(&v, 0, n);
    proof {
        assert(out@ =~= v@.take(n as int));
        assert(n > 0 ==> v@.take(n as int).last() == v@[n - 1]);
        assert(out@ == unslashed(dir@));
    }
    push_text(&mut out, "/");
    push_text(&mut out, stem_file(name));
    push_text(&mut out, ".wav");
    out
}

// ----------------------------------------------------------------------
// Laws
// ----------------------------------------------------------------------

proof fn pcm_len(samples: Seq<i16>)
    ensures
        pcm(samples).len() == 2 * samples.len(),
    decreases samples.len(),
{
    if samples.len() > 0 {
        pcm_len(samples.drop_last());
        le_len(bits16(samples.last()), 2);
    }
}

proof fn pcm_at(samples: Seq<i16>, i: int)
    requires
        0 <= i < samples.len(),
    ensures
        pcm(samples).len() == 2 * samples.len(),
        pcm(samples).subrange(2 * i, 2 * i + 2) == le(bits16(samples[i]), 2),
    decreases samples.len(),
{
    pcm_len(samples);
    pcm_len(samples.drop_last());
    le_len(bits16(samples.last()), 2);
    if i == samples.len() - 1 {
        assert(pcm(samples).subrange(2 * i, 2 * i + 2) =~= le(bits16(samples[i]), 2));
    } else {
        pcm_at(samples.drop_last(), i);
        assert(pcm(samples).subrange(2 * i, 2 * i + 2) =~= pcm(samples.drop_last()).subrange(2 * i, 2 * i + 2));
    }
}

proof fn header_len(n: nat, rate: u32)
    ensures
        header_of(n, rate).len() == 44,
{
    le_len(36 + n, 4);
    le_len(16, 4);
    le_len(1, 2);
    le_len(2, 2);
    le_len(rate as nat, 4);
    le_len(rate as nat * 4, 4);
    le_len(4, 2);
    le_len(16, 2);
    le_len(n, 4);
}

/// Behind the 44 bytes of the header stands each sample, in its place.
pub proof fn samples_read_back(samples: Seq<i16>, rate: u32, i: int)
    requires
        0 <= i < samples.len(),
    ensures
        wav_of(samples, rate).len() == 44 + 2 * samples.len(),
        le_value(wav_of(samples, rate).subrange(44 + 2 * i, 46 + 2 * i)) == bits16(samples[i]),
{
    header_len(data_size(samples), rate);
    pcm_at(samples, i);
    pow256_values();
    le_reads_back(bits16(samples[i]), 2);
    assert(wav_of(samples, rate).subrange(44 + 2 * i, 46 + 2 * i) =~= pcm(samples).subrange(2 * i, 2 * i + 2));
}

} // verus!
