pub mod channels;
pub mod route_legs;
pub mod route_search;
pub mod route_sorting;
pub mod routing;
pub mod routing_slots;
pub mod slot_assignment;
