//! The messages of a chat exchange and what is read from its answer.

use vstd::prelude::*;

verus! {

/// The answer of the chat service to one request.
#[derive(Debug)]
pub struct ChatResponse {
    pub id: String,
    pub choices: Vec<Choice>,
    pub usage: Usage,
}

/// One of the completions that an answer offers.
#[derive(Debug)]
pub struct Choice {
    pub index: u32,
    pub message: Message,
    pub finish_reason: String,
}

/// One message of an exchange: who speaks, and what is said.
#[derive(Debug)]
pub struct Message {
    pub role: String,
    pub content: String,
}

/// The tokens that an exchange was charged with.
#[derive(Clone, Copy, Debug, PartialEq, Eq, Structural)]
pub struct Usage {
    pub prompt_tokens: u32,
    pub completion_tokens: u32,
    pub total_tokens: u32,
}

/// The role under which instructions are given.
pub open spec fn system_role() -> Seq<char> {
    seq!['s', 'y', 's', 't', 'e', 'm']
}

/// The role under which the request itself is made.
pub open spec fn user_role() -> Seq<char> {
    seq!['u', 's', 'e', 'r']
}

impl ChatResponse {
    /// The text of the first completion together with the total of tokens
    /// charged, or `None` where the answer offers no completion.
    pub fn reply(&self) -> (r: Option<(String, u32)>)
        ensures
            r is None <==> self.choices@.len() == 0,
            r matches Some((text, count)) ==> text@ == self.choices@[0].message.content@ && count
                == self.usage.total_tokens,
    {
        if self.choices.len() == 0 {
            None
        } else {
            Some((self.choices[0].message.content.clone(), self.usage.total_tokens))
        }
    }
}

/// The two messages of a request: the instructions under the system role,
/// then the request under the user role.
pub fn prompt_messages(sys_prompt: &str, u_prompt: &str) -> (messages: Vec<Message>)
    ensures
        messages@.len() == 2,
        messages@[0].role@ == system_role(),
        messages@[0].content@ == sys_prompt@,
        messages@[1].role@ == user_role(),
        messages@[1].content@ == u_prompt@,
{
    proof {
        reveal_strlit("system");
        reveal_strlit("user");
        assert("system"@ =~= system_role());
        assert("user"@ =~= user_role());
    }
    let mut messages: Vec<Message> = Vec::new();
    messages.push(Message { role: "system".to_owned(), content: sys_prompt.to_owned() });
    messages.push(Message { role: "user".to_owned(), content: u_prompt.to_owned() });
    messages
}

} // verus!
