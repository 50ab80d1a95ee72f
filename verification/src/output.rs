//! Copying what the output node of a graph produced into the device buffer.
//! The device buffer is interleaved: frame `f` of channel `c` sits at
//! `f * num_channels + c`; a trailing partial frame is not touched.  The
//! samples are only moved, never computed with.

use vstd::prelude::*;

verus! {

/// The number of whole frames an interleaved buffer of `len` samples holds.
pub open spec fn whole_frames(len: nat, num_channels: nat) -> nat {
    len / num_channels
}

/// The output channel that device channel `c` plays: the same channel, or
/// the only one of a mono output.
pub open spec fn source_channel(num_outputs: nat, c: int) -> int {
    if num_outputs == 1 {
        0
    } else {
        c
    }
}

/// The device buffer after routing `output` (one sequence of frames per
/// channel, all of length `out_frames`) into `data`.
pub open spec fn routed<T>(output: Seq<Seq<T>>, out_frames: nat, data: Seq<T>, num_channels: nat) -> Seq<T> {
    Seq::new(
        data.len(),
        |i: int| {
            let f = i / num_channels as int;
            let c = i % num_channels as int;
            if f < out_frames && f < whole_frames(data.len(), num_channels) {
                output[source_channel(output.len(), c)][f]
            } else {
                data[i]
            }
        },
    )
}

proof fn lemma_frame_position(f: int, c: int, n: int)
    requires
        0 <= f,
        0 <= c < n,
    ensures
        (f * n + c) / n == f,
        (f * n + c) % n == c,
{
    vstd::arithmetic::div_mod::lemma_fundamental_div_mod_converse(f * n + c, n, f, c);
}

proof fn lemma_whole_frames_bound(f: int, c: int, n: int, len: int)
    requires
        0 <= f < len / n,
        0 <= c < n,
        0 < n,
        0 <= len,
    ensures
        f * n + c < len,
{
    vstd::arithmetic::div_mod::lemma_fundamental_div_mod(len, n);
    vstd::arithmetic::mul::lemma_mul_inequality(f + 1, len / n, n);
    vstd::arithmetic::mul::lemma_mul_is_distributive_add_other_way(n, f, 1);
}

/// Copies the output node's channels into the device buffer: channel for
/// channel when the counts agree, or the one mono channel into every device
/// channel.  Frames past the shorter of the two are left alone.
pub fn route_output<T: Copy>(output: &Vec<Vec<T>>, out_frames: usize, data: &mut Vec<T>, num_channels: usize)
    requires
        num_channels > 0,
        output@.len() == num_channels || output@.len() == 1,
        forall|c: int| 0 <= c < output@.len() ==> (#[trigger] output@[c])@.len() == out_frames,
    ensures
        final(data)@ == routed(output@.map_values(|v: Vec<T>| v@), out_frames as nat, old(data)@, num_channels as nat),
{
    let ghost out = output@.map_values(|v: Vec<T>| v@);
    let ghost initial = data@;
    let n = num_channels;
    let frames = data.len() / n;
    let count = if out_frames < frames { out_frames } else { frames };
    let mono = output.len() == 1;
    let mut f: usize = 0;
    while f < count
        invariant
            n == num_channels,
            n > 0,
            frames == (initial.len() as int) / (n as int),
            count <= frames,
            count <= out_frames,
            mono == (output@.len() == 1),
            output@.len() == n || output@.len() == 1,
            forall|c: int| 0 <= c < output@.len() ==> (#[trigger] output@[c])@.len() == out_frames,
            out == output@.map_values(|v: Vec<T>| v@),
            data@.len() == initial.len(),
            0 <= f <= count,
            forall|i: int| 0 <= i < data@.len() ==> #[trigger] data@[i] == if i / (n as int) < f {
                out[source_channel(out.len(), i % (n as int))][i / (n as int)]
            } else {
                initial[i]
            },
        decreases count - f,
    {
        let mut c: usize = 0;
        while c < n
            invariant
                n == num_channels,
                n > 0,
                frames == (initial.len() as int) / (n as int),
                f < count,
                count <= frames,
                count <= out_frames,
                mono == (output@.len() == 1),
                output@.len() == n || output@.len() == 1,
                forall|c: int| 0 <= c < output@.len() ==> (#[trigger] output@[c])@.len() == out_frames,
                out == output@.map_values(|v: Vec<T>| v@),
                data@.len() == initial.len(),
                0 <= c <= n,
                forall|i: int| 0 <= i < data@.len() ==> #[trigger] data@[i] == if i / (n as int) < f || (
                i / (n as int) == f && i % (n as int) < c) {
                    out[source_channel(out.len(), i % (n as int))][i / (n as int)]
                } else {
                    initial[i]
                },
            decreases n - c,
        {
            proof {
                lemma_whole_frames_bound(f as int, c as int, n as int, initial.len() as int);
                lemma_frame_position(f as int, c as int, n as int);
            }
            let len = data.len();
            assert(f * n + c < len);
            let src = if mono { 0 } else { c };
            let pos = f * n + c;
            let sample = output[src][f];
            data.set(pos, sample);
            proof {
                assert(out[src as int] == output@[src as int]@);
                assert forall|i: int| 0 <= i < data@.len() implies #[trigger] data@[i] == if i / (n as int) < f || (
                i / (n as int) == f && i % (n as int) < c + 1) {
                    out[source_channel(out.len(), i % (n as int))][i / (n as int)]
                } else {
                    initial[i]
                } by {
                    if i == pos as int {
                        assert(data@[i] == sample);
                        assert(out.len() == output@.len());
                    } else if i / (n as int) == f && i % (n as int) == c {
                        vstd::arithmetic::div_mod::lemma_fundamental_div_mod(i, n as int);
                        vstd::arithmetic::mul::lemma_mul_is_commutative(n as int, f as int);
                        assert(false);
                    }
                }
            }
            c += 1;
        }
        proof {
            assert forall|i: int| 0 <= i < data@.len() implies #[trigger] data@[i] == if i / (n as int) < f + 1 {
                out[source_channel(out.len(), i % (n as int))][i / (n as int)]
            } else {
                initial[i]
            } by {
                vstd::arithmetic::div_mod::lemma_fundamental_div_mod(i, n as int);
            }
        }
        f += 1;
    }
    proof {
        assert forall|i: int| 0 <= i < data@.len() implies #[trigger] data@[i] == routed(out, out_frames as nat, initial, n as nat)[i] by {
            let q = i / (n as int);
            if q < f {
            } else {
                assert(q >= count);
            }
        }
        assert(data@ =~= routed(out, out_frames as nat, initial, n as nat));
    }
}

/// Sets every sample of the whole frames of `data` to `value` (silence,
/// when there is no output node).
pub fn fill_frames<T: Copy>(data: &mut Vec<T>, num_channels: usize, value: T)
    requires
        num_channels > 0,
    ensures
        final(data)@.len() == old(data)@.len(),
        forall|i: int| 0 <= i < old(data)@.len() ==> #[trigger] final(data)@[i] == if i / (num_channels as int)
            < whole_frames(old(data)@.len(), num_channels as nat) {
            value
        } else {
            old(data)@[i]
        },
{
    let ghost initial = data@;
    let n = num_channels;
    let len = data.len();
    let frames = len / n;
    proof {
        vstd::arithmetic::div_mod::lemma_fundamental_div_mod(len as int, n as int);
        vstd::arithmetic::mul::lemma_mul_is_commutative(n as int, frames as int);
        assert(frames * n <= len);
    }
    let end = frames * n;
    let mut i: usize = 0;
    while i < end
        invariant
            n == num_channels,
            n > 0,
            frames == (initial.len() as int) / (n as int),
            end == frames * n,
            end <= initial.len(),
            data@.len() == initial.len(),
            0 <= i <= end,
            forall|j: int| 0 <= j < data@.len() ==> #[trigger] data@[j] == if j < i { value } else { initial[j] },
        decreases end - i,
    {
        data.set(i, value);
        i += 1;
    }
    proof {
        assert forall|j: int| 0 <= j < data@.len() implies #[trigger] data@[j] == if j / (n as int) < frames {
            value
        } else {
            initial[j]
        } by {
            vstd::arithmetic::div_mod::lemma_fundamental_div_mod(j, n as int);
            if j < end {
                vstd::arithmetic::div_mod::lemma_div_is_ordered(j, end as int, n as int);
                vstd::arithmetic::div_mod::lemma_div_by_multiple(frames as int, n as int);
                if j / (n as int) >= frames {
                    vstd::arithmetic::mul::lemma_mul_inequality(frames as int, j / (n as int), n as int);
                    vstd::arithmetic::mul::lemma_mul_is_commutative(n as int, j / (n as int));
                }
            } else {
                if j / (n as int) < frames {
                    vstd::arithmetic::mul::lemma_mul_inequality(j / (n as int) + 1, frames as int, n as int);
                    vstd::arithmetic::mul::lemma_mul_is_distributive_add_other_way(n as int, j / (n as int), 1);
                    vstd::arithmetic::mul::lemma_mul_is_commutative(n as int, j / (n as int));
                }
            }
        }
    }
}

/// The device buffer after writing two mono outputs into a stereo device
/// buffer, frame by frame, for as many frames as all three hold.
pub open spec fn interleaved<T>(left: Seq<T>, right: Seq<T>, data: Seq<T>) -> Seq<T> {
    Seq::new(
        data.len(),
        |i: int| {
            let f = i / 2;
            if f < left.len() && f < right.len() && f < data.len() / 2 {
                if i % 2 == 0 { left[f] } else { right[f] }
            } else {
                data[i]
            }
        },
    )
}

/// Writes the two mono outputs of the output node into a stereo device
/// buffer: left into channel 0, right into channel 1 of each frame.
pub fn interleave_stereo<T: Copy>(left: &Vec<T>, right: &Vec<T>, data: &mut Vec<T>)
    ensures
        final(data)@ == interleaved(left@, right@, old(data)@),
{
    let ghost initial = data@;
    let len = data.len();
    let frames = len / 2;
    let mut count = frames;
    if left.len() < count {
        count = left.len();
    }
    if right.len() < count {
        count = right.len();
    }
    let mut f: usize = 0;
    while f < count
        invariant
            len == initial.len(),
            frames == len / 2,
            count <= frames,
            count <= left@.len(),
            count <= right@.len(),
            data@.len() == initial.len(),
            0 <= f <= count,
            forall|i: int| 0 <= i < data@.len() ==> #[trigger] data@[i] == if i / 2 < f {
                if i % 2 == 0 { left@[i / 2] } else { right@[i / 2] }
            } else {
                initial[i]
            },
        decreases count - f,
    {
        data.set(2 * f, left[f]);
        data.set(2 * f + 1, right[f]);
        f += 1;
    }
    proof {
        assert(data@ =~= interleaved(left@, right@, initial));
    }
}

} // verus!
