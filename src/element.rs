use vstd::prelude::*;

verus! {

/// Display colour of an element.
#[derive(Clone, Copy, PartialEq, Eq, Debug)]
pub enum ElementColor {
    White,
    Red,
    Black,
}

/// Immutable properties of a chemical element.
#[derive(Clone, Copy)]
pub struct Element {
    /// Atomic radius in picometres (placeholder value).
    pub radious_pm: u16,
    /// Atomic mass in atomic units.
    pub mass_u: u16,
    pub name: &'static str,
    pub symbol: &'static str,
    pub color: ElementColor,
    /// Total number of electrons the element can commit to bonds.
    pub connected_electrons_needed: u8,
    pub valence_electrons: u8,
}

/// Number of registered elements; valid element indices are below it.
pub const ELEMENT_COUNT: u8 = 3;

/// Index of oxygen in the element table.
pub const OXYGEN: u8 = 0;

/// Index of hydrogen in the element table.
pub const HYDROGEN: u8 = 1;

/// Index of carbon in the element table.
pub const CARBON: u8 = 2;

/// Total bonding capacity of the element at `index`.
pub open spec fn capacity_of(index: int) -> int {
    if index == 0 {
        2
    } else if index == 1 {
        1
    } else if index == 2 {
        4
    } else {
        0
    }
}

/// Atomic mass of the element at `index`.
pub open spec fn mass_of(index: int) -> int {
    if index == 0 {
        16
    } else if index == 1 {
        1
    } else if index == 2 {
        12
    } else {
        0
    }
}

/// Valence electron count of the element at `index`.
pub open spec fn valence_of(index: int) -> int {
    if index == 0 {
        6
    } else if index == 1 {
        1
    } else if index == 2 {
        4
    } else {
        0
    }
}

/// `e` is the element registered at `index`, in every field.
pub open spec fn is_element(e: Element, index: int) -> bool {
    &&& e.connected_electrons_needed == capacity_of(index)
    &&& e.mass_u == mass_of(index)
    &&& e.valence_electrons == valence_of(index)
    &&& e.radious_pm == 1
    &&& index == OXYGEN ==> e.name@ == "Oxygen"@ && e.symbol@ == "O"@ && e.color == ElementColor::White
    &&& index == HYDROGEN ==> e.name@ == "Hydrogen"@ && e.symbol@ == "H"@ && e.color == ElementColor::Red
    &&& index == CARBON ==> e.name@ == "Carbon"@ && e.symbol@ == "C"@ && e.color == ElementColor::Black
}

/// Looks up the element registered at `index`.
pub fn element_at(index: u8) -> (e: Element)
    requires
        index < ELEMENT_COUNT,
    ensures
        is_element(e, index as int),
        e.connected_electrons_needed == capacity_of(index as int),
        e.mass_u == mass_of(index as int),
        e.valence_electrons == valence_of(index as int),
        e.radious_pm == 1,
        index == OXYGEN ==> e.name@ == "Oxygen"@ && e.symbol@ == "O"@ && e.color == ElementColor::White,
        index == HYDROGEN ==> e.name@ == "Hydrogen"@ && e.symbol@ == "H"@ && e.color == ElementColor::Red,
        index == CARBON ==> e.name@ == "Carbon"@ && e.symbol@ == "C"@ && e.color == ElementColor::Black,
{
    if index == OXYGEN {
        proof {
            reveal_strlit("Oxygen");
            reveal_strlit("O");
        }
        Element {
            valence_electrons: 6,
            radious_pm: 1,
            mass_u: 16,
            name: "Oxygen",
            symbol: "O",
            connected_electrons_needed: 2,
            color: ElementColor::White,
        }
    } else if index == HYDROGEN {
        proof {
            reveal_strlit("Hydrogen");
            reveal_strlit("H");
        }
        Element {
            valence_electrons: 1,
            radious_pm: 1,
            mass_u: 1,
            name: "Hydrogen",
            symbol: "H",
            connected_electrons_needed: 1,
            color: ElementColor::Red,
        }
    } else {
        proof {
            reveal_strlit("Carbon");
            reveal_strlit("C");
        }
        Element {
            valence_electrons: 4,
            radious_pm: 1,
            mass_u: 12,
            name: "Carbon",
            symbol: "C",
            connected_electrons_needed: 4,
            color: ElementColor::Black,
        }
    }
}

} // verus!
