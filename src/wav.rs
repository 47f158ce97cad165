use vstd::prelude::*;

verus! {

/// The little-endian bytes of a 16-bit value.
pub open spec fn le16(x: nat) -> Seq<u8> {
    seq![(x % 256) as u8, ((x / 256) % 256) as u8]
}

/// The little-endian bytes of a 32-bit value.
pub open spec fn le32(x: nat) -> Seq<u8> {
    seq![
        (x % 256) as u8,
        ((x / 256) % 256) as u8,
        ((x / 65536) % 256) as u8,
        ((x / 16777216) % 256) as u8,
    ]
}

/// The ASCII bytes of a four-letter chunk tag.
pub open spec fn tag(a: char, b: char, c: char, d: char) -> Seq<u8> {
    seq![a as u8, b as u8, c as u8, d as u8]
}

/// A size field left open for streaming: all ones.
pub open spec fn open_size() -> Seq<u8> {
    seq![0xffu8, 0xffu8, 0xffu8, 0xffu8]
}

/// The header of a WAV stream of IEEE float samples.
pub struct WavHeader {
    pub channels: u16,
    pub sample_rate: u32,
    pub bits_per_sample: u16,
}

impl WavHeader {
    /// The byte rate and block alignment fit their fields.
    pub open spec fn fits(&self) -> bool {
        &&& self.sample_rate as nat * self.channels as nat <= u32::MAX
        &&& self.sample_rate as nat * self.channels as nat * self.bits_per_sample as nat <= u32::MAX
        &&& self.channels as nat * self.bits_per_sample as nat <= u16::MAX
    }

    pub open spec fn byte_rate(&self) -> nat {
        self.sample_rate as nat * self.channels as nat * self.bits_per_sample as nat / 8
    }

    pub open spec fn block_align(&self) -> nat {
        self.channels as nat * self.bits_per_sample as nat / 8
    }

    /// The 44 header bytes: RIFF and WAVE tags with open sizes, a format chunk for IEEE
    /// float (format 3), and the data chunk tag.
    pub open spec fn header_bytes(&self) -> Seq<u8> {
        tag('R', 'I', 'F', 'F') + open_size() + tag('W', 'A', 'V', 'E') + tag('f', 'm', 't', ' ')
            + le32(16) + le16(3) + le16(self.channels as nat) + le32(self.sample_rate as nat)
            + le32(self.byte_rate()) + le16(self.block_align()) + le16(
            self.bits_per_sample as nat,
        ) + tag('d', 'a', 't', 'a') + open_size()
    }

    pub fn new(channels: u16, sample_rate: u32, bits_per_sample: u16) -> (r: Self)
        ensures
            r.channels == channels,
            r.sample_rate == sample_rate,
            r.bits_per_sample == bits_per_sample,
    {
        WavHeader { channels, sample_rate, bits_per_sample }
    }

    /// Appends the header to `writer`.
    pub fn write_header(&self, writer: &mut Vec<u8>)
        requires
            self.fits(),
        ensures
            final(writer)@ == old(writer)@ + self.header_bytes(),
    {
        let ghost start = writer@;
        push_bytes(writer, &[0x52u8, 0x49, 0x46, 0x46]);
        push_bytes(writer, &[0xffu8, 0xff, 0xff, 0xff]);
        push_bytes(writer, &[0x57u8, 0x41, 0x56, 0x45]);
        push_bytes(writer, &[0x66u8, 0x6d, 0x74, 0x20]);
        push_u32(writer, 16);
        push_u16(writer, 3);
        push_u16(writer, self.channels);
        push_u32(writer, self.sample_rate);
        let byte_rate = self.sample_rate * (self.channels as u32) * (self.bits_per_sample as u32)
            / 8;
        push_u32(writer, byte_rate);
        let block_align = self.channels * self.bits_per_sample / 8;
        push_u16(writer, block_align);
        push_u16(writer, self.bits_per_sample);
        push_bytes(writer, &[0x64u8, 0x61, 0x74, 0x61]);
        push_bytes(writer, &[0xffu8, 0xff, 0xff, 0xff]);
        assert(writer@ =~= start + self.header_bytes());
    }
}

fn push_bytes(out: &mut Vec<u8>, bytes: &[u8; 4])
    ensures
        final(out)@ == old(out)@ + bytes@,
{
    out.push(bytes[0]);
    out.push(bytes[1]);
    out.push(bytes[2]);
    out.push(bytes[3]);
    assert(out@ =~= old(out)@ + bytes@);
}

fn push_u16(out: &mut Vec<u8>, x: u16)
    ensures
        final(out)@ == old(out)@ + le16(x as nat),
{
    out.push((x % 256) as u8);
    out.push(((x / 256) % 256) as u8);
    assert(out@ =~= old(out)@ + le16(x as nat));
}

fn push_u32(out: &mut Vec<u8>, x: u32)
    ensures
        final(out)@ == old(out)@ + le32(x as nat),
{
    out.push((x % 256) as u8);
    out.push(((x / 256) % 256) as u8);
    out.push(((x / 65536) % 256) as u8);
    out.push(((x / 16777216) % 256) as u8);
    assert(out@ =~= old(out)@ + le32(x as nat));
}

} // verus!
