//! The 1-D transform layer: the trusted rustfft kernel behind wrappers, and
//! the verified scalar-transform adapter that adds the inverse normalization.

use vstd::prelude::*;

verus! {

#[verifier::external_type_specification]
#[verifier::external_body]
#[verifier::reject_recursive_types(T)]
pub struct ExComplex<T>(rustfft::num_complex::Complex<T>);

/// The forward discrete Fourier transform that the kernel computes for a
/// sequence of complex scalars; a function of the sequence's values alone.
pub uninterp spec fn dft_of(s: Seq<rustfft::num_complex::Complex64>) -> Seq<
    rustfft::num_complex::Complex64,
>;

/// The unnormalized inverse transform that the kernel computes: the inverse
/// sign convention with no division by the length.
pub uninterp spec fn raw_idft_of(s: Seq<rustfft::num_complex::Complex64>) -> Seq<
    rustfft::num_complex::Complex64,
>;

/// One complex scalar with both components divided by `n`.
pub uninterp spec fn unscale_by(
    c: rustfft::num_complex::Complex64,
    n: u32,
) -> rustfft::num_complex::Complex64;

/// What the raw kernel leaves in a buffer: the forward transform, or the
/// unnormalized inverse.
pub open spec fn raw_kernel(s: Seq<rustfft::num_complex::Complex64>, inverse: bool) -> Seq<
    rustfft::num_complex::Complex64,
> {
    if inverse {
        raw_idft_of(s)
    } else {
        dft_of(s)
    }
}

/// Every element of `s` divided by `n`.
pub open spec fn unscale_seq(s: Seq<rustfft::num_complex::Complex64>, n: u32) -> Seq<
    rustfft::num_complex::Complex64,
> {
    s.map_values(|c: rustfft::num_complex::Complex64| unscale_by(c, n))
}

/// What a full 1-D transform of a lane leaves behind: the forward transform
/// as the kernel computes it, or the inverse normalized by the lane's length.
pub open spec fn kernel_spec(s: Seq<rustfft::num_complex::Complex64>, inverse: bool) -> Seq<
    rustfft::num_complex::Complex64,
> {
    if inverse {
        unscale_seq(raw_idft_of(s), s.len() as u32)
    } else {
        dft_of(s)
    }
}

/// Relies on rustfft's `FftPlanner::plan_fft_forward` and `Fft::process`:
/// plans a forward FFT of exactly the buffer's length and runs it in place.
/// The result is a function of the buffer's values alone and has the same
/// length; `process` cannot panic here because the planned length equals the
/// buffer's length, which is positive.
#[verifier::external_body]
fn run_forward(buf: &mut Vec<rustfft::num_complex::Complex64>)
    requires
        old(buf).len() >= 1,
    ensures
        final(buf)@ == dft_of(old(buf)@),
        final(buf).len() == old(buf).len(),
{
    let mut planner = rustfft::FftPlanner::new();
    let fft = planner.plan_fft_forward(buf.len());
    fft.process(buf);
}

/// Relies on rustfft's `FftPlanner::plan_fft_inverse` and `Fft::process`:
/// plans an inverse FFT of exactly the buffer's length and runs it in place.
/// rustfft leaves the inverse unnormalized, so the result is the raw inverse
/// transform, a function of the buffer's values alone, of the same length.
#[verifier::external_body]
fn run_inverse(buf: &mut Vec<rustfft::num_complex::Complex64>)
    requires
        old(buf).len() >= 1,
    ensures
        final(buf)@ == raw_idft_of(old(buf)@),
        final(buf).len() == old(buf).len(),
{
    let mut planner = rustfft::FftPlanner::new();
    let fft = planner.plan_fft_inverse(buf.len());
    fft.process(buf);
}

/// Relies on num_complex's `Complex::unscale`: divides both components of `c`
/// by `n`; a function of `c` and `n` alone, and float division cannot panic.
#[verifier::external_body]
fn unscale_elem(
    c: rustfft::num_complex::Complex64,
    n: u32,
) -> (r: rustfft::num_complex::Complex64)
    ensures
        r == unscale_by(c, n),
{
    c.unscale(n.into())
}

/// Copies `src` over the contents of `dst`, element by element.
pub fn copy_data(
    dst: &mut Vec<rustfft::num_complex::Complex64>,
    src: &Vec<rustfft::num_complex::Complex64>,
)
    requires
        old(dst).len() == src.len(),
    ensures
        final(dst)@ == src@,
{
    let n = src.len();
    let mut i: usize = 0;
    while i < n
        invariant
            i <= n,
            n == src.len(),
            dst.len() == n,
            forall|j: int| 0 <= j < i ==> dst@[j] == src@[j],
        decreases n - i,
    {
        dst[i] = src[i];
        i += 1;
    }
    assert(dst@ =~= src@);
}

/// Divides every element of `buf` by `n`: the normalization step of the
/// inverse transform.
pub fn unscale_all(buf: &mut Vec<rustfft::num_complex::Complex64>, n: u32)
    ensures
        final(buf)@ == unscale_seq(old(buf)@, n),
{
    let len = buf.len();
    let mut i: usize = 0;
    while i < len
        invariant
            i <= len,
            buf.len() == len,
            len == old(buf).len(),
            forall|j: int| 0 <= j < i ==> buf@[j] == unscale_by(old(buf)@[j], n),
            forall|j: int| i <= j < len ==> buf@[j] == old(buf)@[j],
        decreases len - i,
    {
        let v = buf[i];
        buf[i] = unscale_elem(v, n);
        i += 1;
    }
    assert(buf@ =~= unscale_seq(old(buf)@, n));
}

/// The raw 1-D kernel, out of place: `output` becomes the forward transform
/// of `input`, or the unnormalized inverse; `input` is left as it was.
pub fn _fft(
    input: &mut Vec<rustfft::num_complex::Complex64>,
    output: &mut Vec<rustfft::num_complex::Complex64>,
    inverse: bool,
)
    requires
        old(input).len() == old(output).len(),
        old(input).len() >= 1,
    ensures
        final(input)@ == old(input)@,
        final(output)@ == raw_kernel(old(input)@, inverse),
        final(output).len() == old(input).len(),
{
    copy_data(output, &*input);
    if inverse {
        run_inverse(output);
    } else {
        run_forward(output);
    }
}

/// The forward 1-D transform: `output[k]` becomes the k-th coefficient of the
/// discrete Fourier transform of `input`.
pub fn fft(
    input: &mut Vec<rustfft::num_complex::Complex64>,
    output: &mut Vec<rustfft::num_complex::Complex64>,
)
    requires
        old(input).len() == old(output).len(),
        old(input).len() >= 1,
    ensures
        final(input)@ == old(input)@,
        final(output)@ == dft_of(old(input)@),
        final(output).len() == old(input).len(),
{
    _fft(input, output, false);
}

/// The inverse 1-D transform: the raw inverse kernel, then every element
/// divided by the length, so that the inverse undoes the forward transform
/// up to the kernel's rounding.
pub fn ifft(
    input: &mut Vec<rustfft::num_complex::Complex64>,
    output: &mut Vec<rustfft::num_complex::Complex64>,
)
    requires
        old(input).len() == old(output).len(),
        old(input).len() >= 1,
        old(input).len() <= u32::MAX,
    ensures
        final(input)@ == old(input)@,
        final(output)@ == kernel_spec(old(input)@, true),
        final(output).len() == old(input).len(),
{
    _fft(input, output, true);
    let n: u32 = input.len() as u32;
    unscale_all(output, n);
}

/// One lane through the full 1-D transform, in place: the raw kernel in the
/// chosen direction, then, for the inverse, the division by the lane length.
pub fn transform_lane(buf: &mut Vec<rustfft::num_complex::Complex64>, inverse: bool)
    requires
        old(buf).len() >= 1,
        inverse ==> old(buf).len() <= u32::MAX,
    ensures
        final(buf)@ == kernel_spec(old(buf)@, inverse),
        final(buf).len() == old(buf).len(),
{
    if inverse {
        let n: u32 = buf.len() as u32;
        run_inverse(buf);
        unscale_all(buf, n);
    } else {
        run_forward(buf);
    }
}

} // verus!
