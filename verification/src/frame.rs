//! Where the content of a rendered slide lies: the crop box around its
//! non-white pixels, before it is scaled into the slide's frame.
use vstd::prelude::*;

verus! {

/// Pixel `(x, y)` of an RGBA image `w` pixels wide is ink: not all of its
/// red, green and blue exceed 250.
pub open spec fn ink_at(data: Seq<u8>, w: int, x: int, y: int) -> bool {
    let i = 4 * (y * w + x);
    !(data[i] > 250 && data[i + 1] > 250 && data[i + 2] > 250)
}

/// Row `y` holds ink.
pub open spec fn row_ink(data: Seq<u8>, w: int, y: int) -> bool {
    exists|x: int| 0 <= x < w && #[trigger] ink_at(data, w, x, y)
}

/// Column `x` holds ink between rows `top` and `bot` (inclusive).
pub open spec fn col_ink(data: Seq<u8>, w: int, x: int, top: int, bot: int) -> bool {
    exists|y: int| top <= y <= bot && #[trigger] ink_at(data, w, x, y)
}

/// The first row from `y` on, below `h`, that holds ink.
pub open spec fn first_ink_row(data: Seq<u8>, w: int, h: int, y: int) -> Option<int>
    decreases h - y,
{
    if y >= h || y < 0 {
        None
    } else if row_ink(data, w, y) {
        Some(y)
    } else {
        first_ink_row(data, w, h, y + 1)
    }
}

/// The last row below `k` that holds ink.
pub open spec fn last_ink_row(data: Seq<u8>, w: int, k: int) -> Option<int>
    decreases k,
{
    if k <= 0 {
        None
    } else if row_ink(data, w, k - 1) {
        Some(k - 1)
    } else {
        last_ink_row(data, w, k - 1)
    }
}

/// The first column from `x` on, left of `w`, with ink between `top` and `bot`.
pub open spec fn first_ink_col(data: Seq<u8>, w: int, top: int, bot: int, x: int) -> Option<int>
    decreases w - x,
{
    if x >= w || x < 0 {
        None
    } else if col_ink(data, w, x, top, bot) {
        Some(x)
    } else {
        first_ink_col(data, w, top, bot, x + 1)
    }
}

/// The last column left of `k` with ink between `top` and `bot`.
pub open spec fn last_ink_col(data: Seq<u8>, w: int, top: int, bot: int, k: int) -> Option<int>
    decreases k,
{
    if k <= 0 {
        None
    } else if col_ink(data, w, k - 1, top, bot) {
        Some(k - 1)
    } else {
        last_ink_col(data, w, top, bot, k - 1)
    }
}

/// The crop box `(top, bottom, left, right)`, inclusive, of an RGBA image
/// `w` by `h`: the first and last rows holding ink, then the first and last
/// columns holding ink between them, each widened by `margin` and kept
/// inside the image. Without ink, the whole image.
pub open spec fn crop_box(data: Seq<u8>, w: int, h: int, margin: int) -> (int, int, int, int) {
    let top = match first_ink_row(data, w, h, 0) {
        Some(y) => y,
        None => 0,
    };
    let bot = match last_ink_row(data, w, h) {
        Some(y) => y,
        None => h - 1,
    };
    let left = match first_ink_col(data, w, top, bot, 0) {
        Some(x) => x,
        None => 0,
    };
    let right = match last_ink_col(data, w, top, bot, w) {
        Some(x) => x,
        None => w - 1,
    };
    (
        if top > margin { top - margin } else { 0 },
        if bot + margin < h - 1 { bot + margin } else { h - 1 },
        if left > margin { left - margin } else { 0 },
        if right + margin < w - 1 { right + margin } else { w - 1 },
    )
}

proof fn lemma_index(w: int, h: int, x: int, y: int)
    requires
        0 <= x < w,
        0 <= y < h,
    ensures
        0 <= y * w + x < w * h,
        4 * (y * w + x) + 3 < 4 * (w * h),
{
    assert(y * w + x < w * h) by (nonlinear_arith)
        requires
            0 <= x < w,
            0 <= y < h,
    ;
    assert(0 <= y * w) by (nonlinear_arith)
        requires
            0 <= x < w,
            0 <= y < h,
    ;
}

fn ink(data: &[u8], w: usize, h: usize, x: usize, y: usize) -> (r: bool)
    requires
        data@.len() == 4 * (w * h),
        x < w,
        y < h,
    ensures
        r == ink_at(data@, w as int, x as int, y as int),
{
    let n = data.len();
    proof {
        lemma_index(w as int, h as int, x as int, y as int);
    }
    assert(y * w + x <= n);
    let i = 4 * (y * w + x);
    !(data[i] > 250 && data[i + 1] > 250 && data[i + 2] > 250)
}

fn row_has_ink(data: &[u8], w: usize, h: usize, y: usize) -> (r: bool)
    requires
        data@.len() == 4 * (w * h),
        y < h,
    ensures
        r == row_ink(data@, w as int, y as int),
{
    let mut x: usize = 0;
    while x < w
        invariant
            x <= w,
            y < h,
            data@.len() == 4 * (w * h),
            forall|i: int| 0 <= i < x ==> !ink_at(data@, w as int, i, y as int),
        decreases w - x,
    {
        if ink(data, w, h, x, y) {
            return true;
        }
        x += 1;
    }
    false
}

fn col_has_ink(data: &[u8], w: usize, h: usize, x: usize, top: usize, bot: usize) -> (r: bool)
    requires
        data@.len() == 4 * (w * h),
        x < w,
        bot < h,
    ensures
        r == col_ink(data@, w as int, x as int, top as int, bot as int),
{
    if top > bot {
        return false;
    }
    let mut y: usize = top;
    while y <= bot
        invariant
            top <= y <= bot + 1,
            x < w,
            bot < h,
            data@.len() == 4 * (w * h),
            forall|i: int| top <= i < y ==> !ink_at(data@, w as int, x as int, i),
        decreases bot + 1 - y,
    {
        if ink(data, w, h, x, y) {
            return true;
        }
        y += 1;
    }
    false
}

spec fn opt_int(o: Option<usize>) -> Option<int> {
    match o {
        Some(v) => Some(v as int),
        None => None,
    }
}

fn first_row(data: &[u8], w: usize, h: usize) -> (r: Option<usize>)
    requires
        data@.len() == 4 * (w * h),
    ensures
        opt_int(r) == first_ink_row(data@, w as int, h as int, 0),
        r matches Some(v) ==> v < h,
{
    let mut y: usize = 0;
    while y < h
        invariant
            y <= h,
            data@.len() == 4 * (w * h),
            first_ink_row(data@, w as int, h as int, 0) == first_ink_row(data@, w as int, h as int, y as int),
        decreases h - y,
    {
        if row_has_ink(data, w, h, y) {
            return Some(y);
        }
        y += 1;
    }
    None
}

fn last_row(data: &[u8], w: usize, h: usize) -> (r: Option<usize>)
    requires
        data@.len() == 4 * (w * h),
    ensures
        opt_int(r) == last_ink_row(data@, w as int, h as int),
        r matches Some(v) ==> v < h,
{
    let mut k: usize = h;
    while k > 0
        invariant
            k <= h,
            data@.len() == 4 * (w * h),
            last_ink_row(data@, w as int, h as int) == last_ink_row(data@, w as int, k as int),
        decreases k,
    {
        if row_has_ink(data, w, h, k - 1) {
            return Some(k - 1);
        }
        k -= 1;
    }
    None
}

fn first_col(data: &[u8], w: usize, h: usize, top: usize, bot: usize) -> (r: Option<usize>)
    requires
        data@.len() == 4 * (w * h),
        bot < h,
    ensures
        opt_int(r) == first_ink_col(data@, w as int, top as int, bot as int, 0),
        r matches Some(v) ==> v < w,
{
    let mut x: usize = 0;
    while x < w
        invariant
            x <= w,
            bot < h,
            data@.len() == 4 * (w * h),
            first_ink_col(data@, w as int, top as int, bot as int, 0) == first_ink_col(
                data@,
                w as int,
                top as int,
                bot as int,
                x as int,
            ),
        decreases w - x,
    {
        if col_has_ink(data, w, h, x, top, bot) {
            return Some(x);
        }
        x += 1;
    }
    None
}

fn last_col(data: &[u8], w: usize, h: usize, top: usize, bot: usize) -> (r: Option<usize>)
    requires
        data@.len() == 4 * (w * h),
        bot < h,
    ensures
        opt_int(r) == last_ink_col(data@, w as int, top as int, bot as int, w as int),
        r matches Some(v) ==> v < w,
{
    let mut k: usize = w;
    while k > 0
        invariant
            k <= w,
            bot < h,
            data@.len() == 4 * (w * h),
            last_ink_col(data@, w as int, top as int, bot as int, w as int) == last_ink_col(
                data@,
                w as int,
                top as int,
                bot as int,
                k as int,
            ),
        decreases k,
    {
        if col_has_ink(data, w, h, k - 1, top, bot) {
            return Some(k - 1);
        }
        k -= 1;
    }
    None
}

/// The crop box `(top, bottom, left, right)` of the RGBA pixels `data` of an
/// image `w` by `h` (see `crop_box`).
pub fn content_bounds(data: &[u8], w: usize, h: usize, margin: usize) -> (r: (usize, usize, usize, usize))
    requires
        w > 0,
        h > 0,
        data@.len() == 4 * (w * h),
    ensures
        (r.0 as int, r.1 as int, r.2 as int, r.3 as int) == crop_box(data@, w as int, h as int, margin as int),
{
    let top = match first_row(data, w, h) {
        Some(y) => y,
        None => 0,
    };
    let bot = match last_row(data, w, h) {
        Some(y) => y,
        None => h - 1,
    };
    let left = match first_col(data, w, h, top, bot) {
        Some(x) => x,
        None => 0,
    };
    let right = match last_col(data, w, h, top, bot) {
        Some(x) => x,
        None => w - 1,
    };
    let t = if top > margin { top - margin } else { 0 };
    let b = if bot < h - 1 && margin < h - 1 - bot { bot + margin } else { h - 1 };
    let l = if left > margin { left - margin } else { 0 };
    let rr = if right < w - 1 && margin < w - 1 - right { right + margin } else { w - 1 };
    (t, b, l, rr)
}

} // verus!
