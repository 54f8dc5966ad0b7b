//! Weight records, collation elements and options.
use vstd::prelude::*;

verus! {

/// One weight record of a table row: three levels and the variable flag.
#[derive(Clone, Copy, PartialEq, Eq, Structural, PartialOrd, Ord, Debug, Hash)]
pub struct Weights {
    pub variable: bool,
    pub primary: u16,
    pub secondary: u16,
    pub tertiary: u16,
}

impl Weights {
    /// A record whose weights are all zero and which is not variable.
    pub fn new() -> (w: Weights)
        ensures
            !w.variable,
            w.primary == 0,
            w.secondary == 0,
            w.tertiary == 0,
    {
        Weights { variable: false, primary: 0, secondary: 0, tertiary: 0 }
    }

    /// All three numeric weights are zero.
    pub open spec fn is_ignorable(self) -> bool {
        self.primary == 0 && self.secondary == 0 && self.tertiary == 0
    }
}

impl Default for Weights {
    fn default() -> (w: Weights)
        ensures
            !w.variable,
            w.primary == 0,
            w.secondary == 0,
            w.tertiary == 0,
    {
        Weights::new()
    }
}

/// A collation element: up to four levels of weights. Without shifting the
/// fourth level is unused and holds zero.
#[derive(Clone, Copy, PartialEq, Eq, Structural, Debug, Hash)]
pub struct CollationElement {
    pub primary: u16,
    pub secondary: u16,
    pub tertiary: u16,
    pub quaternary: u16,
}

impl CollationElement {
    /// The weight at `level` (0 to 3).
    pub open spec fn level(self, level: int) -> u16 {
        if level == 0 {
            self.primary
        } else if level == 1 {
            self.secondary
        } else if level == 2 {
            self.tertiary
        } else {
            self.quaternary
        }
    }

    pub fn weight(&self, level: usize) -> (r: u16)
        requires
            level < 4,
        ensures
            r == self.level(level as int),
    {
        if level == 0 {
            self.primary
        } else if level == 1 {
            self.secondary
        } else if level == 2 {
            self.tertiary
        } else {
            self.quaternary
        }
    }
}

/// Which weight table to collate with.
#[derive(Clone, Copy, PartialEq, Eq, Structural, PartialOrd, Ord, Debug, Hash)]
pub enum KeysSource {
    Cldr,
    Ducet,
}

/// The weight table and whether variable weights are shifted to the fourth level.
#[derive(Clone, Copy, PartialEq, Eq, Structural, PartialOrd, Ord, Debug, Hash)]
pub struct CollationOptions {
    pub keys_source: KeysSource,
    pub shifting: bool,
}

impl Default for CollationOptions {
    /// CLDR root, shifted.
    fn default() -> (o: CollationOptions)
        ensures
            o.keys_source == KeysSource::Cldr,
            o.shifting,
    {
        CollationOptions { keys_source: KeysSource::Cldr, shifting: true }
    }
}

/// The number of levels of a sort key: four when shifting, else three.
pub open spec fn levels(shifting: bool) -> int {
    if shifting { 4 } else { 3 }
}

/// The collation element for one weight record, and the variable state after
/// it, when variable weights are shifted.
pub open spec fn shifted_ce(w: Weights, last_variable: bool) -> CollationElement {
    if w.is_ignorable() {
        CollationElement { primary: 0, secondary: 0, tertiary: 0, quaternary: 0 }
    } else if w.variable {
        CollationElement { primary: 0, secondary: 0, tertiary: 0, quaternary: w.primary }
    } else if last_variable && w.primary == 0 && w.tertiary != 0 {
        CollationElement { primary: 0, secondary: 0, tertiary: 0, quaternary: 0 }
    } else {
        CollationElement {
            primary: w.primary,
            secondary: w.secondary,
            tertiary: w.tertiary,
            quaternary: 0xFFFF,
        }
    }
}

/// Whether the last element emitted that was variable or non-ignorable was variable,
/// after emitting `w`.
pub open spec fn shifted_state(w: Weights, last_variable: bool) -> bool {
    if w.is_ignorable() {
        last_variable
    } else if w.variable {
        true
    } else if last_variable && w.primary == 0 && w.tertiary != 0 {
        last_variable
    } else if w.primary != 0 {
        false
    } else {
        last_variable
    }
}

/// The collation element for `w` under the given options.
pub open spec fn ce_of(w: Weights, shifting: bool, last_variable: bool) -> CollationElement {
    if shifting {
        shifted_ce(w, last_variable)
    } else {
        CollationElement { primary: w.primary, secondary: w.secondary, tertiary: w.tertiary, quaternary: 0 }
    }
}

pub open spec fn state_after(w: Weights, shifting: bool, last_variable: bool) -> bool {
    if shifting {
        shifted_state(w, last_variable)
    } else {
        last_variable
    }
}

/// The elements emitted for a row of weight records, starting in state `lv`.
pub open spec fn row_ces(row: Seq<Weights>, shifting: bool, lv: bool) -> Seq<CollationElement>
    decreases row.len(),
{
    if row.len() == 0 {
        seq![]
    } else {
        row_ces(row.drop_last(), shifting, lv).push(
            ce_of(row.last(), shifting, row_state(row.drop_last(), shifting, lv)),
        )
    }
}

/// The variable state after emitting a row, starting in state `lv`.
pub open spec fn row_state(row: Seq<Weights>, shifting: bool, lv: bool) -> bool
    decreases row.len(),
{
    if row.len() == 0 {
        lv
    } else {
        state_after(row.last(), shifting, row_state(row.drop_last(), shifting, lv))
    }
}

/// The collation element for one weight record with shifted variable weights.
pub fn get_weights_shifting(w: &Weights, last_variable: bool) -> (r: CollationElement)
    ensures
        r == shifted_ce(*w, last_variable),
{
    if w.primary == 0 && w.secondary == 0 && w.tertiary == 0 {
        CollationElement { primary: 0, secondary: 0, tertiary: 0, quaternary: 0 }
    } else if w.variable {
        CollationElement { primary: 0, secondary: 0, tertiary: 0, quaternary: w.primary }
    } else if last_variable && w.primary == 0 && w.tertiary != 0 {
        CollationElement { primary: 0, secondary: 0, tertiary: 0, quaternary: 0 }
    } else {
        CollationElement {
            primary: w.primary,
            secondary: w.secondary,
            tertiary: w.tertiary,
            quaternary: 0xFFFF,
        }
    }
}

/// Appends the elements for `row` and updates the variable state.
pub fn push_row(
    cea: &mut Vec<CollationElement>,
    row: &Vec<Weights>,
    shifting: bool,
    last_variable: &mut bool,
)
    ensures
        final(cea)@ == old(cea)@ + row_ces(row@, shifting, *old(last_variable)),
        *final(last_variable) == row_state(row@, shifting, *old(last_variable)),
{
    let ghost start = cea@;
    let ghost lv0 = *last_variable;
    let mut i: usize = 0;
    while i < row.len()
        invariant
            i <= row.len(),
            cea@ == start + row_ces(row@.take(i as int), shifting, lv0),
            *last_variable == row_state(row@.take(i as int), shifting, lv0),
        decreases row.len() - i,
    {
        let w = row[i];
        proof {
            assert(row@.take(i + 1).drop_last() =~= row@.take(i as int));
        }
        if shifting {
            let ce = get_weights_shifting(&w, *last_variable);
            cea.push(ce);
            if w.primary == 0 && w.secondary == 0 && w.tertiary == 0 {
            } else if w.variable {
                *last_variable = true;
            } else if *last_variable && w.primary == 0 && w.tertiary != 0 {
            } else if w.primary != 0 {
                *last_variable = false;
            }
        } else {
            cea.push(CollationElement { primary: w.primary, secondary: w.secondary, tertiary: w.tertiary, quaternary: 0 });
        }
        i = i + 1;
        proof {
            assert(cea@ =~= start + row_ces(row@.take(i as int), shifting, lv0));
        }
    }
    proof {
        assert(row@.take(row.len() as int) =~= row@);
    }
}

} // verus!
