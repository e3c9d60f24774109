use vstd::prelude::*;

verus! {

/// The space of food items a recipe may call for; carried by value in
/// commands.
#[allow(non_camel_case_types)]
#[derive(Debug, Clone, Copy, PartialEq, Eq, Structural)]
pub enum FoodItem {
    CHICKEN,
    SALMON,
}

/// One step of a recipe: prepare an item, or cook an item for a number of
/// seconds.  A step's identity is its position in the recipe's ordered
/// step sequence.
#[derive(Debug, Clone, Copy, PartialEq, Eq, Structural)]
pub enum Step {
    Prepare(FoodItem),
    /// Cook the given food item for the given number of seconds.
    Cook(FoodItem, u64),
}

impl FoodItem {
    /// The human-readable name of the item.
    pub open spec fn name_spec(self) -> Seq<char> {
        match self {
            FoodItem::CHICKEN => "Chicken"@,
            FoodItem::SALMON => "Salmon"@,
        }
    }

    /// Human-readable name, for operator-facing messages.
    pub fn name(&self) -> (r: &'static str)
        ensures
            r@ == self.name_spec(),
    {
        match self {
            FoodItem::CHICKEN => "Chicken",
            FoodItem::SALMON => "Salmon",
        }
    }
}

} // verus!
