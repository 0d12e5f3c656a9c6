//! Colors and entries.
use vstd::prelude::*;
use crate::types::{Albedo, ContreeEntry, VoxelData};

verus! {

impl Albedo {
    /// The color is fully transparent.
    pub open spec fn transparent(&self) -> bool {
        self.a == 0
    }

    /// The color with the given red component.
    pub fn with_red(self, r: u8) -> (c: Self)
        ensures
            c == (Albedo { r, ..self }),
    {
        Albedo { r, g: self.g, b: self.b, a: self.a }
    }

    /// The color with the given green component.
    pub fn with_green(self, g: u8) -> (c: Self)
        ensures
            c == (Albedo { g, ..self }),
    {
        Albedo { r: self.r, g, b: self.b, a: self.a }
    }

    /// The color with the given blue component.
    pub fn with_blue(self, b: u8) -> (c: Self)
        ensures
            c == (Albedo { b, ..self }),
    {
        Albedo { r: self.r, g: self.g, b, a: self.a }
    }

    /// The color with the given alpha component.
    pub fn with_alpha(self, a: u8) -> (c: Self)
        ensures
            c == (Albedo { a, ..self }),
    {
        Albedo { r: self.r, g: self.g, b: self.b, a }
    }

    /// Tells whether the color is fully transparent.
    pub fn is_transparent(&self) -> (t: bool)
        ensures
            t == self.transparent(),
    {
        self.a == 0
    }

    /// The color whose components are all zero.
    pub fn zero() -> (c: Self)
        ensures
            c == (Albedo { r: 0, g: 0, b: 0, a: 0 }),
    {
        Albedo { r: 0, g: 0, b: 0, a: 0 }
    }

    /// Tells whether all components of the color are zero.
    pub fn is_zero(&self) -> (z: bool)
        ensures
            z == (*self == Albedo { r: 0, g: 0, b: 0, a: 0 }),
    {
        self.r == 0 && self.g == 0 && self.b == 0 && self.a == 0
    }

    /// The color packed into a number: red in the highest byte, alpha in the lowest.
    pub open spec fn packed(&self) -> int {
        self.r * 0x100_0000 + self.g * 0x1_0000 + self.b * 0x100 + self.a
    }

    /// The color made of the four bytes of the number, red in the highest byte and alpha in
    /// the lowest.
    pub fn from_u32(value: u32) -> (c: Self)
        ensures
            c.packed() == value,
            c == (Albedo {
                r: (value / 0x100_0000) as u8,
                g: ((value / 0x1_0000) % 0x100) as u8,
                b: ((value / 0x100) % 0x100) as u8,
                a: (value % 0x100) as u8,
            }),
    {
        let a: u8 = (value & 0x000000FF) as u8;
        let b: u8 = ((value & 0x0000FF00) >> 8) as u8;
        let g: u8 = ((value & 0x00FF0000) >> 16) as u8;
        let r: u8 = ((value & 0xFF000000) >> 24) as u8;
        assert((value & 0xFF000000) >> 24 == value / 0x100_0000 && (value & 0x00FF0000) >> 16 == (
        value / 0x1_0000) % 0x100 && (value & 0x0000FF00) >> 8 == (value / 0x100) % 0x100 && value
            & 0x000000FF == value % 0x100) by (bit_vector);
        assert(((value & 0xFF000000) >> 24) * 0x100_0000 + ((value & 0x00FF0000) >> 16) * 0x1_0000
            + ((value & 0x0000FF00) >> 8) * 0x100 + (value & 0x000000FF) == value
            && (value & 0x000000FF) < 256 && ((value & 0x0000FF00) >> 8) < 256 && ((value
            & 0x00FF0000) >> 16) < 256 && ((value & 0xFF000000) >> 24) < 256) by (bit_vector);
        Albedo { r, g, b, a }
    }

    /// The number that holds the four components of the color, red in the highest byte and
    /// alpha in the lowest.
    pub fn to_u32(&self) -> (value: u32)
        ensures
            value == self.packed(),
    {
        (self.r as u32) * 0x100_0000 + (self.g as u32) * 0x1_0000 + (self.b as u32) * 0x100 + (
        self.a as u32)
    }
}

impl Default for Albedo {
    /// The color whose components are all zero.
    fn default() -> (c: Self)
        ensures
            c == (Albedo { r: 0, g: 0, b: 0, a: 0 }),
    {
        Albedo { r: 0, g: 0, b: 0, a: 0 }
    }
}

impl core::ops::Add for Albedo {
    type Output = Albedo;

    /// The color whose components are the sums of the components of the two colors.
    fn add(self, other: Albedo) -> (c: Albedo) {
        Albedo {
            r: self.r + other.r,
            g: self.g + other.g,
            b: self.b + other.b,
            a: self.a + other.a,
        }
    }
}

impl vstd::std_specs::ops::AddSpecImpl for Albedo {
    open spec fn obeys_add_spec() -> bool {
        true
    }

    open spec fn add_req(self, other: Albedo) -> bool {
        &&& self.r + other.r <= u8::MAX
        &&& self.g + other.g <= u8::MAX
        &&& self.b + other.b <= u8::MAX
        &&& self.a + other.a <= u8::MAX
    }

    open spec fn add_spec(self, other: Albedo) -> Albedo {
        Albedo {
            r: (self.r + other.r) as u8,
            g: (self.g + other.g) as u8,
            b: (self.b + other.b) as u8,
            a: (self.a + other.a) as u8,
        }
    }
}

impl From<u32> for Albedo {
    /// The color made of the four bytes of the number, red in the highest byte and alpha in
    /// the lowest.
    fn from(value: u32) -> (c: Self) {
        Albedo::from_u32(value)
    }
}

impl vstd::std_specs::convert::FromSpecImpl<u32> for Albedo {
    open spec fn obeys_from_spec() -> bool {
        true
    }

    open spec fn from_spec(value: u32) -> Self {
        Albedo {
            r: (value / 0x100_0000) as u8,
            g: ((value / 0x1_0000) % 0x100) as u8,
            b: ((value / 0x100) % 0x100) as u8,
            a: (value % 0x100) as u8,
        }
    }
}

impl<'a, T: VoxelData> From<&'a Albedo> for ContreeEntry<'a, T> {
    /// The entry of a color.
    fn from(albedo: &'a Albedo) -> (e: Self) {
        ContreeEntry::Visual(albedo)
    }
}

impl<'a, T: VoxelData> vstd::std_specs::convert::FromSpecImpl<&'a Albedo> for ContreeEntry<'a, T> {
    open spec fn obeys_from_spec() -> bool {
        true
    }

    open spec fn from_spec(albedo: &'a Albedo) -> Self {
        ContreeEntry::Visual(albedo)
    }
}

impl<'a, T: VoxelData> From<(&'a Albedo, &'a T)> for ContreeEntry<'a, T> {
    /// The entry of a color together with user data.
    fn from(pair: (&'a Albedo, &'a T)) -> (e: Self) {
        ContreeEntry::Complex(pair.0, pair.1)
    }
}

impl<'a, T: VoxelData> vstd::std_specs::convert::FromSpecImpl<(&'a Albedo,
    &'a T)> for ContreeEntry<'a, T> {
    open spec fn obeys_from_spec() -> bool {
        true
    }

    open spec fn from_spec(pair: (&'a Albedo, &'a T)) -> Self {
        ContreeEntry::Complex(pair.0, pair.1)
    }
}

impl<'a, T: VoxelData> ContreeEntry<'a, T> {
    /// The entry of a color.
    pub fn visual(albedo: &'a Albedo) -> (e: Self)
        ensures
            e == ContreeEntry::<T>::Visual(albedo),
    {
        ContreeEntry::Visual(albedo)
    }

    /// The entry of user data.
    pub fn informative(data: &'a T) -> (e: Self)
        ensures
            e == ContreeEntry::<T>::Informative(data),
    {
        ContreeEntry::Informative(data)
    }

    /// The entry of a color together with user data.
    pub fn complex(albedo: &'a Albedo, data: &'a T) -> (e: Self)
        ensures
            e == ContreeEntry::<T>::Complex(albedo, data),
    {
        ContreeEntry::Complex(albedo, data)
    }

    /// The color of the entry, where it has one.
    pub open spec fn color(&self) -> Option<Albedo> {
        match self {
            ContreeEntry::Empty => None,
            ContreeEntry::Visual(albedo) => Some(**albedo),
            ContreeEntry::Informative(_) => None,
            ContreeEntry::Complex(albedo, _) => Some(**albedo),
        }
    }

    /// The user data of the entry, where it has some.
    pub open spec fn user_data(&self) -> Option<T> {
        match self {
            ContreeEntry::Empty => None,
            ContreeEntry::Visual(_) => None,
            ContreeEntry::Informative(data) => Some(**data),
            ContreeEntry::Complex(_, data) => Some(**data),
        }
    }

    /// The entry holds nothing to show and nothing to tell: its color is missing or
    /// transparent, and its data is missing or empty.
    pub open spec fn none(&self) -> bool {
        match self {
            ContreeEntry::Empty => true,
            ContreeEntry::Visual(albedo) => albedo.transparent(),
            ContreeEntry::Informative(data) => data.empty(),
            ContreeEntry::Complex(albedo, data) => albedo.transparent() && data.empty(),
        }
    }

    /// The color that the tree keeps of this entry: the color, unless it is transparent.
    pub open spec fn kept_color(&self) -> Option<Albedo> {
        match self.color() {
            Some(albedo) => if albedo.transparent() {
                None
            } else {
                Some(albedo)
            },
            None => None,
        }
    }

    /// The data that the tree keeps of this entry: the data, unless it is empty.
    pub open spec fn kept_data(&self) -> Option<T> {
        match self.user_data() {
            Some(data) => if data.empty() {
                None
            } else {
                Some(data)
            },
            None => None,
        }
    }

    /// The color of the entry, if it has one.
    pub fn albedo(&self) -> (r: Option<&'a Albedo>)
        ensures
            r matches Some(albedo) ==> self.color() == Some(*albedo),
            r is None <==> self.color() is None,
    {
        match self {
            ContreeEntry::Empty => None,
            ContreeEntry::Visual(albedo) => Some(*albedo),
            ContreeEntry::Informative(_) => None,
            ContreeEntry::Complex(albedo, _) => Some(*albedo),
        }
    }

    /// The user data of the entry, if it has some.
    pub fn data(&self) -> (r: Option<&'a T>)
        ensures
            r matches Some(data) ==> self.user_data() == Some(*data),
            r is None <==> self.user_data() is None,
    {
        match self {
            ContreeEntry::Empty => None,
            ContreeEntry::Visual(_) => None,
            ContreeEntry::Informative(data) => Some(*data),
            ContreeEntry::Complex(_, data) => Some(*data),
        }
    }

    /// Tells whether the entry holds nothing to show and nothing to tell.
    pub fn is_none(&self) -> (r: bool)
        ensures
            r == self.none(),
    {
        match self {
            ContreeEntry::Empty => true,
            ContreeEntry::Visual(albedo) => albedo.is_transparent(),
            ContreeEntry::Informative(data) => data.is_empty(),
            ContreeEntry::Complex(albedo, data) => albedo.is_transparent() && data.is_empty(),
        }
    }

    /// Tells whether the entry holds something to show or to tell.
    pub fn is_some(&self) -> (r: bool)
        ensures
            r == !self.none(),
    {
        !self.is_none()
    }
}

} // verus!
