use vstd::prelude::*;

verus! {

/// Which side of replication a server is on. It is fixed when the server
/// state is built.
#[derive(Debug, Clone, Copy, PartialEq, Eq, Structural)]
pub enum Role {
    Master,
    Slave,
}

impl Role {
    /// The word that stands for this role in the `role:` line of an
    /// `INFO replication` reply.
    pub open spec fn name(self) -> Seq<char> {
        match self {
            Role::Master => "master"@,
            Role::Slave => "slave"@,
        }
    }

    /// The role's name as text.
    pub fn as_str(&self) -> (s: &'static str)
        ensures
            s@ == self.name(),
    {
        match self {
            Role::Master => "master",
            Role::Slave => "slave",
        }
    }
}

} // verus!
