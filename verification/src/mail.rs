use vstd::prelude::*;

verus! {

/// The settings an SMTP mailer runs with.  Building one from the environment
/// and the sending itself are outside work; the mock switch below is what
/// tests flip to log instead of send.
pub struct Mailer {
    pub smtp_username: String,
    pub smtp_password: String,
    pub smtp_host: String,
    pub sender_email: String,
    pub sender_name: Option<String>,
    pub mock: bool,
}

impl Mailer {
    /// Log the email body without actually sending it; useful for testing.
    pub fn mock(&mut self) -> (r: &Self)
        ensures
            final(self).mock == true,
            final(self).smtp_username == old(self).smtp_username,
            final(self).smtp_password == old(self).smtp_password,
            final(self).smtp_host == old(self).smtp_host,
            final(self).sender_email == old(self).sender_email,
            final(self).sender_name == old(self).sender_name,
    {
        self.mock = true;
        self
    }
}

} // verus!
