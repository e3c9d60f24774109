use vstd::prelude::*;

verus! {

/// The six logical channels of the handshake protocol.  Worker and
/// coordinator agree on these out of band: each logical name maps
/// one-to-one to a stable transport identifier string.
#[derive(Debug, Clone, Copy, PartialEq, Eq, Structural)]
pub enum TopicName {
    PrepareCommand,
    PrepareCommandAck,
    PrepareCommandDone,
    CookCommand,
    CookCommandAck,
    CookCommandDone,
}

impl TopicName {
    /// The transport identifier this logical channel maps to.
    pub open spec fn str_spec(self) -> Seq<char> {
        match self {
            TopicName::PrepareCommand => "prepare_command"@,
            TopicName::PrepareCommandAck => "prepare_command_ack"@,
            TopicName::PrepareCommandDone => "prepare_command_done"@,
            TopicName::CookCommand => "cook_command"@,
            TopicName::CookCommandAck => "cook_command_ack"@,
            TopicName::CookCommandDone => "cook_command_done"@,
        }
    }

    /// The transport identifier this logical channel maps to.
    pub fn as_str(&self) -> (r: &'static str)
        ensures
            r@ == self.str_spec(),
    {
        match self {
            TopicName::PrepareCommand => "prepare_command",
            TopicName::PrepareCommandAck => "prepare_command_ack",
            TopicName::PrepareCommandDone => "prepare_command_done",
            TopicName::CookCommand => "cook_command",
            TopicName::CookCommandAck => "cook_command_ack",
            TopicName::CookCommandDone => "cook_command_done",
        }
    }
}

/// The mapping from logical channel to transport identifier is one-to-one:
/// two distinct logical channels never share an identifier.
pub proof fn lemma_topic_names_distinct(a: TopicName, b: TopicName)
    ensures
        a != b ==> a.str_spec() != b.str_spec(),
{
    reveal_strlit("prepare_command");
    reveal_strlit("prepare_command_ack");
    reveal_strlit("prepare_command_done");
    reveal_strlit("cook_command");
    reveal_strlit("cook_command_ack");
    reveal_strlit("cook_command_done");
    // all six identifiers have pairwise distinct lengths
    assert("prepare_command"@.len() == 15);
    assert("prepare_command_ack"@.len() == 19);
    assert("prepare_command_done"@.len() == 20);
    assert("cook_command"@.len() == 12);
    assert("cook_command_ack"@.len() == 16);
    assert("cook_command_done"@.len() == 17);
}

} // verus!
