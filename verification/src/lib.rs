//! The decisions of a small OpenGL viewer, verified: how vertex data is laid
//! out in buffers, which keys are held and what they change, when the event
//! loop ends, and in which order a scene graph is updated and drawn.
pub mod controls;
pub mod events;
pub mod keys;
pub mod layout;
pub mod scene;
pub mod vao;
