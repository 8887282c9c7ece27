//! Conflict-free timetable assembly over weekly time-slot bitmasks.

pub mod command;
pub mod course;
pub mod course_map;
pub mod keyed;
pub mod laws;
pub mod mask;
pub mod prereq;
pub mod scheduler;
pub mod serilize;
pub mod table;
