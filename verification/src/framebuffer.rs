//! The shared output image: a row-major RGB byte buffer that is filled one
//! scanline at a time, in any order, and handed on whole.
//!
//! Scanlines are numbered from the bottom of the picture, as the camera
//! counts them; the buffer stores the top scanline first.

use vstd::prelude::*;

verus! {

/// Number of bytes in one scanline of the given width.
pub open spec fn row_len(width: int) -> int {
    3 * width
}

/// Offset of the first byte of scanline `j`, counted from the bottom, in a
/// buffer that stores the top scanline first.
pub open spec fn row_start(width: int, height: int, j: int) -> int {
    (height - 1 - j) * row_len(width)
}

/// The buffer `buf` with the bytes of scanline `j` replaced by `row`.
pub open spec fn with_row(buf: Seq<u8>, width: int, height: int, j: int, row: Seq<u8>) -> Seq<u8> {
    let start = row_start(width, height, j);
    buf.subrange(0, start) + row + buf.subrange(start + row_len(width), buf.len() as int)
}

/// The bytes that `buf` holds for scanline `j`.
pub open spec fn row_of(buf: Seq<u8>, width: int, height: int, j: int) -> Seq<u8> {
    let start = row_start(width, height, j);
    buf.subrange(start, start + row_len(width))
}

/// Scanline `j` lies inside a buffer of `height` scanlines.
pub proof fn lemma_row_in_bounds(width: int, height: int, j: int)
    requires
        0 <= width,
        0 <= j < height,
    ensures
        0 <= row_start(width, height, j),
        row_start(width, height, j) + row_len(width) <= 3 * width * height,
{
    assert(0 <= (height - 1 - j) * (3 * width) && (height - 1 - j) * (3 * width) + 3 * width <= 3
        * width * height) by (nonlinear_arith)
        requires
            0 <= width,
            0 <= j < height,
    ;
}

/// Two different scanlines share no byte: the one nearer the top ends
/// before the other begins.
pub proof fn lemma_rows_disjoint(width: int, height: int, j: int, k: int)
    requires
        0 <= width,
        0 <= j < k < height,
    ensures
        row_start(width, height, k) + row_len(width) <= row_start(width, height, j),
{
    assert((height - 1 - k) * (3 * width) + 3 * width <= (height - 1 - j) * (3 * width))
        by (nonlinear_arith)
        requires
            0 <= width,
            0 <= j < k < height,
    ;
}

/// Writing a scanline stores exactly its bytes there and leaves every
/// other scanline as it was.
pub proof fn lemma_with_row_reads(
    buf: Seq<u8>,
    width: int,
    height: int,
    j: int,
    row: Seq<u8>,
    k: int,
)
    requires
        0 <= width,
        buf.len() == 3 * width * height,
        0 <= j < height,
        0 <= k < height,
        row.len() == row_len(width),
    ensures
        with_row(buf, width, height, j, row).len() == buf.len(),
        k == j ==> row_of(with_row(buf, width, height, j, row), width, height, k) == row,
        k != j ==> row_of(with_row(buf, width, height, j, row), width, height, k) == row_of(
            buf,
            width,
            height,
            k,
        ),
{
    lemma_row_in_bounds(width, height, j);
    lemma_row_in_bounds(width, height, k);
    if j < k {
        lemma_rows_disjoint(width, height, j, k);
    } else if k < j {
        lemma_rows_disjoint(width, height, k, j);
    }
    let next = with_row(buf, width, height, j, row);
    if k == j {
        assert(row_of(next, width, height, k) =~= row);
    } else {
        assert(row_of(next, width, height, k) =~= row_of(buf, width, height, k));
    }
}

/// Scanlines can be written in any order: writing two different scanlines
/// gives the same buffer whichever comes first.
pub proof fn lemma_rows_commute(
    buf: Seq<u8>,
    width: int,
    height: int,
    j: int,
    row_j: Seq<u8>,
    k: int,
    row_k: Seq<u8>,
)
    requires
        0 <= width,
        buf.len() == 3 * width * height,
        0 <= j < height,
        0 <= k < height,
        j != k,
        row_j.len() == row_len(width),
        row_k.len() == row_len(width),
    ensures
        with_row(with_row(buf, width, height, j, row_j), width, height, k, row_k) == with_row(
            with_row(buf, width, height, k, row_k),
            width,
            height,
            j,
            row_j,
        ),
{
    lemma_row_in_bounds(width, height, j);
    lemma_row_in_bounds(width, height, k);
    if j < k {
        lemma_rows_disjoint(width, height, j, k);
    } else {
        lemma_rows_disjoint(width, height, k, j);
    }
    assert(with_row(with_row(buf, width, height, j, row_j), width, height, k, row_k) =~= with_row(
        with_row(buf, width, height, k, row_k),
        width,
        height,
        j,
        row_j,
    ));
}

/// Writing the same scanline again replaces what the first write stored.
pub proof fn lemma_row_overwrite(
    buf: Seq<u8>,
    width: int,
    height: int,
    j: int,
    first: Seq<u8>,
    second: Seq<u8>,
)
    requires
        0 <= width,
        buf.len() == 3 * width * height,
        0 <= j < height,
        first.len() == row_len(width),
        second.len() == row_len(width),
    ensures
        with_row(with_row(buf, width, height, j, first), width, height, j, second) == with_row(
            buf,
            width,
            height,
            j,
            second,
        ),
{
    lemma_row_in_bounds(width, height, j);
    assert(with_row(with_row(buf, width, height, j, first), width, height, j, second) =~= with_row(
        buf,
        width,
        height,
        j,
        second,
    ));
}

/// A buffer is its scanlines: two buffers of one size that agree on every
/// scanline are the same buffer.
pub proof fn lemma_rows_determine(a: Seq<u8>, b: Seq<u8>, width: int, height: int)
    requires
        0 <= width,
        0 <= height,
        a.len() == 3 * width * height,
        b.len() == 3 * width * height,
        forall|j: int|
            0 <= j < height ==> #[trigger] row_of(a, width, height, j) == row_of(
                b,
                width,
                height,
                j,
            ),
    ensures
        a == b,
{
    assert forall|m: int| 0 <= m < a.len() implies a[m] == b[m] by {
        let stride = 3 * width;
        assert(stride > 0 && height > 0) by (nonlinear_arith)
            requires
                0 <= m < 3 * width * height,
                0 <= width,
                0 <= height,
                stride == 3 * width,
        ;
        let r = m / stride;
        assert(r * stride <= m < r * stride + stride && 0 <= r < height) by (nonlinear_arith)
            requires
                r == m / stride,
                stride > 0,
                0 <= m < stride * height,
        ;
        let j = height - 1 - r;
        let start = row_start(width, height, j);
        assert(start == r * stride);
        lemma_row_in_bounds(width, height, j);
        assert(row_of(a, width, height, j)[m - start] == a[m]);
        assert(row_of(b, width, height, j)[m - start] == b[m]);
    }
    assert(a =~= b);
}

/// Why a scanline was not accepted.
#[derive(Clone, Copy, Debug, PartialEq, Eq)]
pub enum RowError {
    /// The scanline number is not below the image height.
    OutOfRange,
    /// The scanline does not hold three bytes for each column.
    WrongLength,
}

/// An RGB image under construction.
pub struct Framebuffer {
    data: Vec<u8>,
    written: Vec<bool>,
    width: u32,
    height: u32,
}

impl Framebuffer {
    /// The bytes of the image, top scanline first.
    pub closed spec fn view(&self) -> Seq<u8> {
        self.data@
    }

    /// Width of the image in pixels.
    pub closed spec fn spec_width(&self) -> int {
        self.width as int
    }

    /// Height of the image in pixels.
    pub closed spec fn spec_height(&self) -> int {
        self.height as int
    }

    /// For each scanline, counted from the bottom, whether it has been written.
    pub closed spec fn spec_written(&self) -> Seq<bool> {
        self.written@
    }

    /// The buffer holds three bytes for each pixel and one flag for each scanline.
    pub open spec fn wf(&self) -> bool {
        &&& self@.len() == 3 * self.spec_width() * self.spec_height()
        &&& self.spec_written().len() == self.spec_height()
    }

    /// Every scanline has been written.
    pub open spec fn spec_complete(&self) -> bool {
        forall|j: int| 0 <= j < self.spec_written().len() ==> self.spec_written()[j]
    }

    /// A black image of the given size with no scanline written, unless its
    /// byte count does not fit the address space.
    pub fn new(width: u32, height: u32) -> (fb: Option<Self>)
        ensures
            fb.is_some() <==> 3 * (width as int) * (height as int) <= usize::MAX as int,
            fb matches Some(f) ==> {
                &&& f.wf()
                &&& f.spec_width() == width as int
                &&& f.spec_height() == height as int
                &&& f@ == Seq::new((3 * (width as int) * (height as int)) as nat, |i: int| 0u8)
                &&& f.spec_written() == Seq::new(height as nat, |j: int| false)
            },
    {
        assert(0 <= 3 * (width as int) * (height as int) <= 3 * 0xffff_ffff * 0xffff_ffff)
            by (nonlinear_arith)
            requires
                0 <= width as int <= 0xffff_ffff,
                0 <= height as int <= 0xffff_ffff,
        ;
        let total: u128 = 3 * (width as u128) * (height as u128);
        if total > usize::MAX as u128 {
            return None;
        }
        let len: usize = total as usize;
        let mut data: Vec<u8> = Vec::new();
        let mut i: usize = 0;
        while i < len
            invariant
                i <= len,
                data@.len() == i,
                forall|k: int| 0 <= k < i ==> data@[k] == 0u8,
            decreases len - i,
        {
            data.push(0u8);
            i += 1;
        }
        let mut written: Vec<bool> = Vec::new();
        let mut j: u32 = 0;
        while j < height
            invariant
                j <= height,
                written@.len() == j,
                forall|k: int| 0 <= k < j ==> !written@[k],
            decreases height - j,
        {
            written.push(false);
            j += 1;
        }
        assert(data@ =~= Seq::new((3 * (width as int) * (height as int)) as nat, |i: int| 0u8));
        assert(written@ =~= Seq::new(height as nat, |j: int| false));
        Some(Framebuffer { data, written, width, height })
    }

    /// Width in pixels.
    pub fn width(&self) -> (w: u32)
        ensures
            w as int == self.spec_width(),
    {
        self.width
    }

    /// Height in pixels.
    pub fn height(&self) -> (h: u32)
        ensures
            h as int == self.spec_height(),
    {
        self.height
    }

    /// Number of bytes in the image.
    pub fn len(&self) -> (n: usize)
        ensures
            n == self@.len(),
    {
        self.data.len()
    }

    /// Where scanline `j`, counted from the bottom, begins in the buffer;
    /// `None` when the image has no such scanline.
    pub fn row_offset(&self, j: u32) -> (start: Option<usize>)
        requires
            self.wf(),
        ensures
            start.is_some() <==> (j as int) < self.spec_height(),
            start matches Some(s) ==> s as int == row_start(
                self.spec_width(),
                self.spec_height(),
                j as int,
            ) && s + row_len(self.spec_width()) <= self@.len(),
    {
        if j >= self.height {
            return None;
        }
        proof {
            lemma_row_in_bounds(self.width as int, self.height as int, j as int);
        }
        let len = self.data.len();
        let rows_above: usize = (self.height - 1 - j) as usize;
        assert((rows_above as int) * (3 * (self.width as int)) == row_start(
            self.width as int,
            self.height as int,
            j as int,
        ));
        assert(0 <= 3 * (self.width as int) <= len) by (nonlinear_arith)
            requires
                len as int == 3 * (self.width as int) * (self.height as int),
                self.height as int >= 1,
                self.width as int >= 0,
        ;
        let stride: usize = 3 * (self.width as usize);
        Some(rows_above * stride)
    }

    /// Stores the bytes of scanline `j`, counted from the bottom, and marks
    /// it written. A scanline number outside the image or a scanline of the
    /// wrong length is refused and changes nothing.
    pub fn insert_row(&mut self, j: u32, row: &Vec<u8>) -> (res: Result<(), RowError>)
        requires
            old(self).wf(),
        ensures
            final(self).wf(),
            final(self).spec_width() == old(self).spec_width(),
            final(self).spec_height() == old(self).spec_height(),
            (j as int) >= old(self).spec_height() ==> res == Err::<(), RowError>(
                RowError::OutOfRange,
            ),
            (j as int) < old(self).spec_height() && row@.len() != row_len(old(self).spec_width())
                ==> res == Err::<(), RowError>(RowError::WrongLength),
            (j as int) < old(self).spec_height() && row@.len() == row_len(old(self).spec_width())
                ==> res.is_ok(),
            res.is_ok() ==> final(self)@ == with_row(
                old(self)@,
                old(self).spec_width(),
                old(self).spec_height(),
                j as int,
                row@,
            ) && final(self).spec_written() == old(self).spec_written().update(j as int, true),
            res.is_err() ==> final(self)@ == old(self)@ && final(self).spec_written() == old(
                self,
            ).spec_written(),
    {
        let start = match self.row_offset(j) {
            Some(s) => s,
            None => {
                return Err(RowError::OutOfRange);
            },
        };
        let n = row.len();
        let len = self.data.len();
        if len - start < n || self.width as u128 * 3 != n as u128 {
            return Err(RowError::WrongLength);
        }
        let mut k: usize = 0;
        while k < n
            invariant
                k <= n,
                n == row@.len(),
                start + n <= len,
                len == self.data@.len(),
                self.data@.len() == old(self).data@.len(),
                self.written@ == old(self).written@,
                self.width == old(self).width,
                self.height == old(self).height,
                forall|m: int|
                    0 <= m < self.data@.len() ==> self.data@[m] == (if start <= m < start + k {
                        row@[m - start]
                    } else {
                        old(self).data@[m]
                    }),
            decreases n - k,
        {
            self.data.set(start + k, row[k]);
            k += 1;
        }
        self.written.set(j as usize, true);
        assert(self.data@ =~= with_row(
            old(self).data@,
            old(self).width as int,
            old(self).height as int,
            j as int,
            row@,
        ));
        Ok(())
    }

    /// Puts a whole image together from its scanlines, `rows[j]` being
    /// scanline `j` counted from the bottom. There is an image exactly when
    /// its byte count fits the address space, there is one row for each
    /// scanline and each row holds three bytes for each column.
    pub fn assemble(width: u32, height: u32, rows: &Vec<Vec<u8>>) -> (fb: Option<Self>)
        ensures
            fb.is_some() <==> {
                &&& 3 * (width as int) * (height as int) <= usize::MAX as int
                &&& rows@.len() == height as int
                &&& forall|j: int|
                    0 <= j < rows@.len() ==> (#[trigger] rows@[j])@.len() == row_len(width as int)
            },
            fb matches Some(f) ==> {
                &&& f.wf()
                &&& f.spec_width() == width as int
                &&& f.spec_height() == height as int
                &&& f.spec_complete()
                &&& forall|j: int|
                    0 <= j < height ==> #[trigger] row_of(f@, width as int, height as int, j)
                        == rows@[j]@
            },
    {
        let mut fb = match Framebuffer::new(width, height) {
            Some(f) => f,
            None => {
                return None;
            },
        };
        if rows.len() as u128 != height as u128 {
            return None;
        }
        let mut j: u32 = 0;
        while j < height
            invariant
                j <= height,
                rows@.len() == height as int,
                fb.wf(),
                fb.spec_width() == width as int,
                fb.spec_height() == height as int,
                3 * (width as int) * (height as int) <= usize::MAX as int,
                forall|k: int|
                    0 <= k < j ==> (#[trigger] rows@[k])@.len() == row_len(width as int),
                forall|k: int| 0 <= k < j ==> fb.spec_written()[k],
                forall|k: int|
                    0 <= k < j ==> #[trigger] row_of(fb@, width as int, height as int, k)
                        == rows@[k]@,
            decreases height - j,
        {
            let ghost before = fb@;
            match fb.insert_row(j, &rows[j as usize]) {
                Ok(()) => {},
                Err(_) => {
                    assert(rows@[j as int]@.len() != row_len(width as int));
                    return None;
                },
            }
            proof {
                assert forall|k: int| 0 <= k < j + 1 implies #[trigger] row_of(
                    fb@,
                    width as int,
                    height as int,
                    k,
                ) == rows@[k]@ by {
                    lemma_with_row_reads(
                        before,
                        width as int,
                        height as int,
                        j as int,
                        rows@[j as int]@,
                        k,
                    );
                }
            }
            j += 1;
        }
        Some(fb)
    }

    /// Whether scanline `j`, counted from the bottom, has been written.
    pub fn is_written(&self, j: u32) -> (done: bool)
        requires
            self.wf(),
        ensures
            done == ((j as int) < self.spec_height() && self.spec_written()[j as int]),
    {
        j < self.height && self.written[j as usize]
    }

    /// Whether every scanline has been written.
    pub fn is_complete(&self) -> (done: bool)
        requires
            self.wf(),
        ensures
            done == self.spec_complete(),
    {
        let mut j: usize = 0;
        while j < self.written.len()
            invariant
                j <= self.written@.len(),
                forall|k: int| 0 <= k < j ==> self.written@[k],
            decreases self.written@.len() - j,
        {
            if !self.written[j] {
                assert(!self.spec_written()[j as int]);
                return false;
            }
            j += 1;
        }
        true
    }

    /// The bytes of the image, top scanline first.
    pub fn as_bytes(&self) -> (bytes: &Vec<u8>)
        ensures
            bytes@ == self@,
    {
        &self.data
    }

    /// Gives up the image for encoding.
    pub fn into_bytes(self) -> (bytes: Vec<u8>)
        ensures
            bytes@ == self@,
    {
        self.data
    }
}

} // verus!
