//! The common argument block that precedes the input of a library applet.

use vstd::prelude::*;

verus! {

/// Size in bytes of the argument block, as the applet reads it.
pub const COMMON_ARGUMENTS_SIZE: u32 = 32;

/// The common arguments of a library applet launch.
#[derive(Clone, Copy, Debug)]
pub struct CommonArguments {
    pub version: u32,
    pub size: u32,
    pub la_api_version: u32,
    pub theme_color: u32,
    pub play_startup_sound: bool,
    pub pad: [u8; 7],
    pub system_tick: u64,
}

/// The `n` bytes of `v`, least significant first.
pub open spec fn le_bytes(v: nat, n: nat) -> Seq<u8>
    decreases n,
{
    if n == 0 {
        Seq::empty()
    } else {
        seq![(v % 256) as u8] + le_bytes(v / 256, (n - 1) as nat)
    }
}

/// The argument block as the applet reads it: the four 32-bit fields, the
/// startup-sound flag, seven bytes of padding and the system tick, all
/// little-endian.
pub open spec fn common_arguments_bytes(a: CommonArguments) -> Seq<u8> {
    le_bytes(a.version as nat, 4) + le_bytes(a.size as nat, 4) + le_bytes(a.la_api_version as nat, 4)
        + le_bytes(a.theme_color as nat, 4) + seq![
        if a.play_startup_sound {
            1u8
        } else {
            0u8
        },
    ] + a.pad@ + le_bytes(a.system_tick as nat, 8)
}

/// Appends the `n` low bytes of `v`, least significant first.
fn push_le_bytes(out: &mut Vec<u8>, v: u64, n: usize)
    requires
        n <= 8,
    ensures
        final(out)@ == old(out)@ + le_bytes(v as nat, n as nat),
{
    let ghost start = out@;
    let mut rest: u64 = v;
    let mut i: usize = 0;
    while i < n
        invariant
            i <= n <= 8,
            out@ + le_bytes(rest as nat, (n - i) as nat) == start + le_bytes(v as nat, n as nat),
        decreases n - i,
    {
        let ghost before = out@;
        let byte = (rest & 0xFF) as u8;
        assert(rest & 0xFF == rest % 256) by (bit_vector);
        assert(rest >> 8 == rest / 256) by (bit_vector);
        proof {
            assert(le_bytes(rest as nat, (n - i) as nat) == seq![byte] + le_bytes(
                (rest / 256) as nat,
                (n - i - 1) as nat,
            ));
        }
        out.push(byte);
        rest = rest >> 8;
        proof {
            assert(before + (seq![byte] + le_bytes(rest as nat, (n - i - 1) as nat)) =~= out@
                + le_bytes(rest as nat, (n - i - 1) as nat));
        }
        i = i + 1;
    }
    assert(out@ + le_bytes(rest as nat, 0) =~= out@);
}

impl CommonArguments {
    /// The arguments for a launch at `system_tick`, with the block's own
    /// size filled in and zeroed padding.
    pub fn new(
        version: u32,
        la_api_version: u32,
        theme_color: u32,
        play_startup_sound: bool,
        system_tick: u64,
    ) -> (a: Self)
        ensures
            a.version == version,
            a.size == COMMON_ARGUMENTS_SIZE,
            a.la_api_version == la_api_version,
            a.theme_color == theme_color,
            a.play_startup_sound == play_startup_sound,
            a.pad@ == seq![0u8; 7],
            a.system_tick == system_tick,
    {
        let a = Self {
            version,
            size: COMMON_ARGUMENTS_SIZE,
            la_api_version,
            theme_color,
            play_startup_sound,
            pad: [0u8; 7],
            system_tick,
        };
        assert(a.pad@ =~= seq![0u8; 7]);
        a
    }

    /// The block's bytes in the layout the applet reads.
    pub fn to_bytes(&self) -> (b: Vec<u8>)
        ensures
            b@ == common_arguments_bytes(*self),
            b@.len() == COMMON_ARGUMENTS_SIZE,
    {
        let mut b: Vec<u8> = Vec::new();
        push_le_bytes(&mut b, self.version as u64, 4);
        push_le_bytes(&mut b, self.size as u64, 4);
        push_le_bytes(&mut b, self.la_api_version as u64, 4);
        push_le_bytes(&mut b, self.theme_color as u64, 4);
        b.push(if self.play_startup_sound {
            1
        } else {
            0
        });
        let mut i: usize = 0;
        let ghost head = b@;
        while i < 7
            invariant
                i <= 7,
                b@ == head + self.pad@.take(i as int),
            decreases 7 - i,
        {
            b.push(self.pad[i]);
            assert(head + self.pad@.take(i + 1) =~= (head + self.pad@.take(i as int)).push(
                self.pad@[i as int],
            ));
            i = i + 1;
        }
        assert(self.pad@.take(7) =~= self.pad@);
        push_le_bytes(&mut b, self.system_tick, 8);
        proof {
            lemma_le_bytes_len(self.version as nat, 4);
            lemma_le_bytes_len(self.size as nat, 4);
            lemma_le_bytes_len(self.la_api_version as nat, 4);
            lemma_le_bytes_len(self.theme_color as nat, 4);
            lemma_le_bytes_len(self.system_tick as nat, 8);
        }
        b
    }
}

proof fn lemma_le_bytes_len(v: nat, n: nat)
    ensures
        le_bytes(v, n).len() == n,
    decreases n,
{
    if n > 0 {
        lemma_le_bytes_len(v / 256, (n - 1) as nat);
    }
}

} // verus!
