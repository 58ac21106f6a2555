pub mod paxos;
pub mod rounds;
