//! The configuration of the service.

use vstd::prelude::*;
use vstd::string::StringExecFns;
use crate::hmac::Key;

verus! {

/// What the pages and messages say of this instance.
pub struct Ui {
    pub instance_name: String,
    pub instance_article_dative: String,
    pub email_from: String,
    /// The least number of online nodes that a node list must name to be acted on.
    pub min_online_nodes: Option<usize>,
}

/// The addresses that the service is reached under and reads from.
pub struct Urls {
    pub root: String,
    pub nodes: String,
    pub sources: String,
    pub stylesheet: Option<String>,
}

/// `s` without the `c` at its end, however many there are.
pub open spec fn trim_end(s: Seq<char>, c: char) -> Seq<char>
    decreases s.len(),
{
    if s.len() > 0 && s.last() == c {
        trim_end(s.drop_last(), c)
    } else {
        s
    }
}

impl Urls {
    /// The full address of `origin`, a path below the root of the service:
    /// the root without the slashes at its end, then the path.
    pub fn absolute(&self, origin: &str) -> (url: String)
        ensures
            url@ == trim_end(self.root@, '/') + origin@,
    {
        let root = self.root.as_str();
        let mut end: usize = root.unicode_len();
        proof {
            assert(root@.take(end as int) =~= root@);
        }
        while end > 0 && root.get_char(end - 1) == '/'
            invariant
                end <= root@.len(),
                trim_end(root@, '/') == trim_end(root@.take(end as int), '/'),
            decreases end,
        {
            proof {
                assert(root@.take(end as int).drop_last() =~= root@.take(end - 1));
            }
            end -= 1;
        }
        let mut url = root.substring_char(0, end).to_owned();
        proof {
            assert(root@.subrange(0, end as int) =~= root@.take(end as int));
        }
        url.append(origin);
        url
    }
}

/// What must not be shown: how mail is sent, and the key that actions are signed with.
pub struct Secrets {
    pub smtp_host: Option<String>,
    pub action_signing_key: Key,
}

impl Secrets {
    /// The host that mail is handed to: the one that is configured, or else
    /// this machine.
    pub open spec fn smtp_host_text(&self) -> Seq<char> {
        match self.smtp_host {
            Some(h) => h@,
            None => "localhost"@,
        }
    }

    /// The host that mail is handed to: the one that is configured, or else
    /// this machine.
    pub fn get_smtp_host(&self) -> (host: &str)
        ensures
            host@ == self.smtp_host_text(),
    {
        match &self.smtp_host {
            Some(h) => h.as_str(),
            None => "localhost",
        }
    }
}

/// The configuration of the service.
pub struct Config {
    pub ui: Ui,
    pub secrets: Secrets,
    pub urls: Urls,
}

} // verus!
