//! The decisions of resizing a swapchain: the image size that the surface
//! allows, how many present semaphores to add, and what an out-of-date
//! result means.

use vstd::prelude::*;

verus! {

/// `value` held within `min..=max`.
pub open spec fn clamped(value: u32, min: u32, max: u32) -> u32 {
    if value < min {
        min
    } else if value > max {
        max
    } else {
        value
    }
}

/// The size of the swapchain images for a window of `width` by `height`:
/// each side held within the extent that the surface allows.
pub fn swapchain_extent(width: u32, height: u32, min_width: u32, max_width: u32, min_height: u32, max_height: u32) -> (r: (u32, u32))
    requires
        min_width <= max_width,
        min_height <= max_height,
    ensures
        r == (clamped(width, min_width, max_width), clamped(height, min_height, max_height)),
{
    let w = if width < min_width {
        min_width
    } else if width > max_width {
        max_width
    } else {
        width
    };
    let h = if height < min_height {
        min_height
    } else if height > max_height {
        max_height
    } else {
        height
    };
    (w, h)
}

/// How many present semaphores to add to `have` of them so that there is one
/// per swapchain image: none where there are enough.
pub fn semaphores_to_add(have: usize, images: usize) -> (r: usize)
    ensures
        r == (if images > have { images - have } else { 0 }),
{
    if images > have {
        images - have
    } else {
        0
    }
}

/// `VK_ERROR_OUT_OF_DATE_KHR`.
pub const ERROR_OUT_OF_DATE: i32 = -1000001004;

/// Reading a swapchain result where an out-of-date swapchain is expected;
/// the error is a `VkResult` code.
pub trait SwapchainResultExt<T>: Sized {
    /// The result is a value or the out-of-date error.
    spec fn is_value_or_out_of_date(&self) -> bool;

    /// The value it holds, if any.
    spec fn value(&self) -> Option<T>;

    /// The value, or `None` where the swapchain is out of date.
    fn unwrap_out_of_date(self) -> (r: Option<T>)
        requires
            self.is_value_or_out_of_date(),
        ensures
            r == self.value(),
    ;
}

impl<T> SwapchainResultExt<T> for Result<T, i32> {
    open spec fn is_value_or_out_of_date(&self) -> bool {
        *self matches Err(code) ==> code == ERROR_OUT_OF_DATE
    }

    open spec fn value(&self) -> Option<T> {
        match *self {
            Ok(v) => Some(v),
            Err(_) => None,
        }
    }

    fn unwrap_out_of_date(self) -> (r: Option<T>) {
        match self {
            Ok(v) => Some(v),
            Err(_) => None,
        }
    }
}

} // verus!
