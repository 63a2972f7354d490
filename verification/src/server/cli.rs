//! The server's command line, once parsed, and the rules it must obey.

use vstd::prelude::*;
use crate::address::{ip_value, parse_ip};
use crate::text::{bounded_decimal, chars_of, find_last, last_index_of, parse_decimal};

verus! {

/// The server's command line.
#[derive(Debug)]
pub struct Cli {
    /// The configuration file to read, if one was named.
    pub config: Option<String>,
    /// Check the configuration and do nothing else.
    pub validate: bool,
    /// The address to listen on, with or without a port after a colon.
    pub listen: String,
    /// The port to listen on, where `listen` names none.
    pub port: Option<u16>,
    /// How much to log.
    pub loglevel: String,
}

/// The port that `s` spells: a decimal numeral of at most 65535, which a
/// plus sign may precede.
pub open spec fn port_value(s: Seq<char>) -> Option<nat> {
    if s.len() > 0 && s[0] == '+' {
        bounded_decimal(s.skip(1), 65535)
    } else {
        bounded_decimal(s, 65535)
    }
}

/// What is wrong with a listen address, in the words shown to the user.
///
/// Where the address holds a colon, what follows the last colon must be a
/// port other than zero, and what stands before it an IP address; the port
/// is looked at first. Where it holds none, all of it must be an IP address.
pub open spec fn listen_defect(listen: Seq<char>) -> Option<Seq<char>> {
    match last_index_of(listen, ':') {
        Some(i) => {
            let port_text = listen.skip(i + 1);
            let ip_text = listen.take(i);
            match port_value(port_text) {
                None => Some("Invalid port number: "@ + port_text),
                Some(port) => if port == 0 {
                    Some("Port cannot be 0"@)
                } else if ip_value(ip_text) is None {
                    Some("Invalid IP address: "@ + ip_text)
                } else {
                    None
                },
            }
        },
        None => if ip_value(listen) is None {
            Some("Invalid IP address: "@ + listen)
        } else {
            None
        },
    }
}

/// Reads a port.
fn parse_port(chars: &Vec<char>) -> (r: Option<u16>)
    ensures
        match r {
            Some(p) => port_value(chars@) == Some(p as nat),
            None => port_value(chars@) is None,
        },
{
    let n = chars.len();
    let digits = if n > 0 && chars[0] == '+' {
        let mut rest: Vec<char> = Vec::new();
        let mut i: usize = 1;
        while i < n
            invariant
                1 <= i <= n,
                n == chars.len(),
                rest@ == chars@.subrange(1, i as int),
            decreases n - i,
        {
            rest.push(chars[i]);
            assert(chars@.subrange(1, i as int).push(chars@[i as int]) == chars@.subrange(
                1,
                i + 1,
            ));
            i += 1;
        }
        assert(chars@.skip(1) == chars@.subrange(1, n as int));
        parse_decimal(&rest, 65535)
    } else {
        parse_decimal(chars, 65535)
    };
    digits
}

impl Cli {
    /// What is wrong with the command line, in the words shown to the user:
    /// a port given twice, or else what is wrong with the listen address.
    pub open spec fn defect(&self) -> Option<Seq<char>> {
        if self.port is Some && self.listen@.contains(':') {
            Some("Cannot specify both a port in --listen and --port option. Use only one."@)
        } else {
            listen_defect(self.listen@)
        }
    }

    /// Checks the command line and names the first thing wrong with it.
    pub fn validate(&self) -> (r: Result<(), String>)
        ensures
            match r {
                Ok(()) => self.defect() is None,
                Err(message) => self.defect() == Some(message@),
            },
    {
        let chars = chars_of(self.listen.as_str());
        proof {
            crate::text::lemma_last_index_of(self.listen@, ':');
        }
        if self.port.is_some() && find_last(&chars, ':').is_some() {
            return Err(
                String::from_str(
                    "Cannot specify both a port in --listen and --port option. Use only one.",
                ),
            );
        }
        self.validate_listen_address()
    }

    /// Checks the listen address.
    pub fn validate_listen_address(&self) -> (r: Result<(), String>)
        ensures
            match r {
                Ok(()) => listen_defect(self.listen@) is None,
                Err(message) => listen_defect(self.listen@) == Some(message@),
            },
    {
        let listen = self.listen.as_str();
        let chars = chars_of(listen);
        let n = chars.len();
        match find_last(&chars, ':') {
            Some(i) => {
                proof {
                    crate::text::lemma_last_index_of(self.listen@, ':');
                }
                let port_text = listen.substring_char(i + 1, n);
                let ip_text = listen.substring_char(0, i);
                assert(port_text@ == self.listen@.skip(i + 1));
                assert(ip_text@ == self.listen@.take(i as int));
                let port_chars = chars_of(port_text);
                match parse_port(&port_chars) {
                    Some(port) => {
                        if port == 0 {
                            return Err(String::from_str("Port cannot be 0"));
                        }
                    },
                    None => {
                        let mut message = String::from_str("Invalid port number: ");
                        message.append(port_text);
                        return Err(message);
                    },
                }
                if !self.is_valid_ip(ip_text) {
                    let mut message = String::from_str("Invalid IP address: ");
                    message.append(ip_text);
                    return Err(message);
                }
            },
            None => {
                if !self.is_valid_ip(listen) {
                    let mut message = String::from_str("Invalid IP address: ");
                    message.append(listen);
                    return Err(message);
                }
            },
        }
        Ok(())
    }

    /// Whether `ip` is an IPv4 or an IPv6 address.
    pub fn is_valid_ip(&self, ip: &str) -> (valid: bool)
        ensures
            valid == ip_value(ip@) is Some,
    {
        let chars = chars_of(ip);
        parse_ip(&chars).is_some()
    }
}

} // verus!
