//! Scalar types that may back a window.

use crate::sealed::Sealed;
use vstd::prelude::*;

verus! {

/// The scalar types of window elements.
#[derive(Debug, Clone, Copy, PartialEq, Eq, Structural)]
pub enum Element {
    U8,
    U16,
    U32,
    U64,
    Usize,
    I8,
    I16,
    I32,
    I64,
    Isize,
    F32,
    F64,
}

impl Element {
    /// The number by which ranks compare their element types.
    pub open spec fn spec_type_id(self) -> u8 {
        match self {
            Element::U8 => 1,
            Element::U16 => 2,
            Element::U32 => 3,
            Element::U64 => 4,
            Element::Usize => 5,
            Element::I8 => 6,
            Element::I16 => 7,
            Element::I32 => 8,
            Element::I64 => 9,
            Element::Isize => 10,
            Element::F32 => 11,
            Element::F64 => 12,
        }
    }

    /// The bytes that one value takes.
    pub open spec fn spec_width(self) -> usize {
        match self {
            Element::U8 | Element::I8 => 1,
            Element::U16 | Element::I16 => 2,
            Element::U32 | Element::I32 | Element::F32 => 4,
            Element::U64 | Element::I64 | Element::F64 => 8,
            Element::Usize | Element::Isize => (usize::BITS / 8) as usize,
        }
    }

    #[verifier::when_used_as_spec(spec_type_id)]
    pub fn type_id(self) -> (id: u8)
        ensures
            id == self.spec_type_id(),
    {
        match self {
            Element::U8 => 1,
            Element::U16 => 2,
            Element::U32 => 3,
            Element::U64 => 4,
            Element::Usize => 5,
            Element::I8 => 6,
            Element::I16 => 7,
            Element::I32 => 8,
            Element::I64 => 9,
            Element::Isize => 10,
            Element::F32 => 11,
            Element::F64 => 12,
        }
    }

    #[verifier::when_used_as_spec(spec_width)]
    pub fn width(self) -> (width: usize)
        ensures
            width == self.spec_width(),
            1 <= width <= 8,
    {
        match self {
            Element::U8 | Element::I8 => 1,
            Element::U16 | Element::I16 => 2,
            Element::U32 | Element::I32 | Element::F32 => 4,
            Element::U64 | Element::I64 | Element::F64 => 8,
            Element::Usize | Element::Isize => (usize::BITS / 8) as usize,
        }
    }
}

/// Plain scalar values whose in-memory representation is safe for remote access.
///
/// The trait is sealed: a type whose extent exceeds the value cannot back a
/// contiguous window.
pub trait RmaElement: Sealed + Copy + Send + Sync + 'static {
    const TYPE_ID: u8;

    /// Which of the scalar types this is.
    spec fn spec_element() -> Element;

    fn element() -> (element: Element)
        ensures
            element == Self::spec_element(),
            element.type_id() == Self::TYPE_ID,
            element.width() == vstd::layout::size_of::<Self>(),
    ;
}

impl RmaElement for u8 {
    const TYPE_ID: u8 = 1;

    open spec fn spec_element() -> Element {
        Element::U8
    }

    fn element() -> (element: Element) {
        broadcast use vstd::layout::layout_of_primitives;

        Element::U8
    }
}

impl RmaElement for u16 {
    const TYPE_ID: u8 = 2;

    open spec fn spec_element() -> Element {
        Element::U16
    }

    fn element() -> (element: Element) {
        broadcast use vstd::layout::layout_of_primitives;

        Element::U16
    }
}

impl RmaElement for u32 {
    const TYPE_ID: u8 = 3;

    open spec fn spec_element() -> Element {
        Element::U32
    }

    fn element() -> (element: Element) {
        broadcast use vstd::layout::layout_of_primitives;

        Element::U32
    }
}

impl RmaElement for u64 {
    const TYPE_ID: u8 = 4;

    open spec fn spec_element() -> Element {
        Element::U64
    }

    fn element() -> (element: Element) {
        broadcast use vstd::layout::layout_of_primitives;

        Element::U64
    }
}

impl RmaElement for usize {
    const TYPE_ID: u8 = 5;

    open spec fn spec_element() -> Element {
        Element::Usize
    }

    fn element() -> (element: Element) {
        broadcast use vstd::layout::layout_of_primitives;

        Element::Usize
    }
}

impl RmaElement for i8 {
    const TYPE_ID: u8 = 6;

    open spec fn spec_element() -> Element {
        Element::I8
    }

    fn element() -> (element: Element) {
        broadcast use vstd::layout::layout_of_primitives;

        Element::I8
    }
}

impl RmaElement for i16 {
    const TYPE_ID: u8 = 7;

    open spec fn spec_element() -> Element {
        Element::I16
    }

    fn element() -> (element: Element) {
        broadcast use vstd::layout::layout_of_primitives;

        Element::I16
    }
}

impl RmaElement for i32 {
    const TYPE_ID: u8 = 8;

    open spec fn spec_element() -> Element {
        Element::I32
    }

    fn element() -> (element: Element) {
        broadcast use vstd::layout::layout_of_primitives;

        Element::I32
    }
}

impl RmaElement for i64 {
    const TYPE_ID: u8 = 9;

    open spec fn spec_element() -> Element {
        Element::I64
    }

    fn element() -> (element: Element) {
        broadcast use vstd::layout::layout_of_primitives;

        Element::I64
    }
}

impl RmaElement for isize {
    const TYPE_ID: u8 = 10;

    open spec fn spec_element() -> Element {
        Element::Isize
    }

    fn element() -> (element: Element) {
        broadcast use vstd::layout::layout_of_primitives;

        Element::Isize
    }
}

/// Ranks that compare type numbers compare types: two element types with one
/// number are the same.
pub proof fn type_ids_tell_elements_apart(a: Element, b: Element)
    ensures
        a.type_id() == b.type_id() <==> a == b,
{
}

/// An element is as wide as the value that it stands for.
pub proof fn elements_are_as_wide_as_their_values()
    ensures
        <u8 as RmaElement>::spec_element().width() == vstd::layout::size_of::<u8>(),
        <u16 as RmaElement>::spec_element().width() == vstd::layout::size_of::<u16>(),
        <u32 as RmaElement>::spec_element().width() == vstd::layout::size_of::<u32>(),
        <u64 as RmaElement>::spec_element().width() == vstd::layout::size_of::<u64>(),
        <usize as RmaElement>::spec_element().width() == vstd::layout::size_of::<usize>(),
        <i8 as RmaElement>::spec_element().width() == vstd::layout::size_of::<i8>(),
        <i16 as RmaElement>::spec_element().width() == vstd::layout::size_of::<i16>(),
        <i32 as RmaElement>::spec_element().width() == vstd::layout::size_of::<i32>(),
        <i64 as RmaElement>::spec_element().width() == vstd::layout::size_of::<i64>(),
        <isize as RmaElement>::spec_element().width() == vstd::layout::size_of::<isize>(),
        Element::F32.width() * 8 == 32,
        Element::F64.width() * 8 == 64,
{
    broadcast use vstd::layout::layout_of_primitives;

}

} // verus!
