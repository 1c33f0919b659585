//! Layout of PlantUML diagrams: the text helpers and the draw-order rules of
//! the activity layout.
pub mod activity;
pub mod activity_order;
