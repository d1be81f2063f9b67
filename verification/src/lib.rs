use vstd::prelude::*;

pub mod trap;
pub mod text;
pub mod nmap;
pub mod dispatch;
pub mod acct;
pub mod cell;
pub mod boundary;
pub mod envelope;
pub mod value;
pub mod pool;
pub mod scalar;
pub mod fuel;
pub mod blocks;
pub mod seq;
pub mod elems;
pub mod strheap;
pub mod arrheap;
pub mod host;
pub mod store;
pub mod session;
pub mod trace;
pub mod strops;
pub mod cells;
pub mod frames;
pub mod tablecells;
pub mod threaded;
pub mod bytecode;
pub mod verify;
pub mod step;
pub mod layout;
pub mod runloop;
