use vstd::prelude::*;
use crate::steps::FoodItem;

verus! {

/// Marker message: the worker finished the unit of work for the current
/// command.  At most one is expected per command, strictly after the
/// matching acknowledgment.
#[derive(Debug, Clone, Copy, PartialEq, Eq, Structural)]
pub struct CommandDone;

/// Command initiating preparation of a food item.  One instance is created
/// per step dispatch and not retained after sending.
#[derive(Debug, Clone, Copy, PartialEq, Eq, Structural)]
pub struct PrepareCommand {
    pub item: FoodItem,
}

impl PrepareCommand {
    pub fn new(item: FoodItem) -> (r: Self)
        ensures
            r.item == item,
    {
        Self { item }
    }

    pub fn get_item(&self) -> (r: FoodItem)
        ensures
            r == self.item,
    {
        self.item
    }
}

/// Marker message acknowledging receipt of a prepare command.
#[derive(Debug, Clone, Copy, PartialEq, Eq, Structural)]
pub struct PrepareCommandAck;

/// Command initiating cooking of a food item for a number of seconds.
#[derive(Debug, Clone, Copy, PartialEq, Eq, Structural)]
pub struct CookCommand {
    pub item: FoodItem,
    pub time: u64,
}

impl CookCommand {
    pub fn new(item: FoodItem, time: u64) -> (r: Self)
        ensures
            r.item == item,
            r.time == time,
    {
        Self { item, time }
    }

    pub fn get_item(&self) -> (r: FoodItem)
        ensures
            r == self.item,
    {
        self.item
    }

    /// The commanded cooking time, in seconds.
    pub fn get_duration(&self) -> (r: u64)
        ensures
            r == self.time,
    {
        self.time
    }
}

/// Marker message acknowledging receipt of a cooking command.
#[derive(Debug, Clone, Copy, PartialEq, Eq, Structural)]
pub struct CookCommandAck;

/// Marker acknowledgment for the simple one-shot command exchange.
#[derive(Debug, Clone, Copy, PartialEq, Eq, Structural)]
pub struct SimpleCommandAck;

impl SimpleCommandAck {
    pub fn new() -> (r: Self)
        ensures
            r == SimpleCommandAck,
    {
        Self
    }
}

} // verus!
