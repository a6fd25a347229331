//! Client configuration: turning raw command-line values into checked
//! settings. The command-line front end itself lives outside the library and
//! hands in plain optional strings.

use vstd::prelude::*;
use crate::ascii::{all_dec_digits, dec_value, parse_dec_u16};
use crate::domain::{Domain, split_dot};

verus! {

/// The raw command-line values, absent where the flag was not given.
pub struct FlagArgs {
    pub addr: Option<String>,
    pub host: String,
    pub concurrency: Option<String>,
    pub query_window: Option<String>,
    pub response_window: Option<String>,
    pub password: Option<String>,
    pub remote_host: Option<String>,
    pub remote_port: Option<String>,
    pub listen_port: Option<String>,
    pub query_min_time: Option<String>,
    pub query_max_time: Option<String>,
    pub query_mtu: Option<String>,
    pub response_mtu: Option<String>,
}

/// The client's checked settings.
pub struct Flags {
    pub addr: String,
    pub host: Domain,
    pub concurrency: u16,
    pub query_window: u16,
    pub response_window: u16,
    pub password: String,
    pub remote_host: Domain,
    pub remote_port: u16,
    pub listen_port: u16,
    pub query_min_time_ms: u64,
    pub query_max_time_ms: u64,
    pub query_mtu: Option<u16>,
    pub response_mtu: Option<u16>,
}

/// Parse an optional decimal value, keeping absence as absence.
pub fn parse_optional(x: Option<&str>) -> (r: Result<Option<u16>, String>)
    ensures
        x is None ==> r == Ok::<Option<u16>, String>(None),
        x matches Some(s) ==> ({
            &&& (s@.len() > 0 && all_dec_digits(s@) && dec_value(s@) <= u16::MAX) ==> r == Ok::<
                Option<u16>,
                String,
            >(Some(dec_value(s@) as u16))
            &&& !(s@.len() > 0 && all_dec_digits(s@) && dec_value(s@) <= u16::MAX) ==> r is Err
        }),
{
    match x {
        None => Ok(None),
        Some(s) => match parse_dec_u16(s) {
            Some(v) => Ok(Some(v)),
            None => Err("bad argument".to_owned()),
        },
    }
}

proof fn lemma_arg_nonneg(x: &Option<String>)
    ensures
        x matches Some(s) ==> (all_dec_digits(s@) ==> dec_value(s@) >= 0),
{
    match x {
        Some(s) => {
            if all_dec_digits(s@) {
                crate::ascii::lemma_dec_value_nonneg(s@);
            }
        },
        None => {},
    }
}

/// A present flag parses as a decimal number; an absent one takes the
/// default.
fn arg_u16(x: &Option<String>, default: u16) -> (r: Result<u16, String>)
    ensures
        x is None ==> r == Ok::<u16, String>(default),
        x matches Some(s) ==> ({
            &&& (s@.len() > 0 && all_dec_digits(s@) && dec_value(s@) <= u16::MAX) ==> r == Ok::<
                u16,
                String,
            >(dec_value(s@) as u16)
            &&& !(s@.len() > 0 && all_dec_digits(s@) && dec_value(s@) <= u16::MAX) ==> r is Err
        }),
{
    match x {
        None => Ok(default),
        Some(s) => match parse_dec_u16(s.as_str()) {
            Some(v) => Ok(v),
            None => Err("bad numeric argument".to_owned()),
        },
    }
}

impl Flags {
    /// Build the settings from raw command-line values, applying the
    /// defaults of the client.
    pub fn parse(args: FlagArgs) -> (r: Result<Flags, String>)
        ensures
            r matches Ok(f) ==> ({
                &&& f.host@ == split_dot(args.host@) && f.host.wf()
                &&& (args.addr matches Some(a) ==> f.addr@ == a@)
                &&& (args.addr is None ==> f.addr@ == "localhost:53"@)
                &&& (args.password matches Some(p) ==> f.password@ == p@)
                &&& (args.password is None ==> f.password@ == ""@)
                &&& (args.concurrency is None ==> f.concurrency == 2)
                &&& (args.query_window is None ==> f.query_window == 4)
                &&& (args.response_window is None ==> f.response_window == 4)
                &&& (args.remote_port is None ==> f.remote_port == 22)
                &&& (args.listen_port is None ==> f.listen_port == 2222)
                &&& (args.query_min_time is None ==> f.query_min_time_ms == 50)
                &&& (args.query_max_time is None ==> f.query_max_time_ms == 5000)
                &&& (args.concurrency matches Some(s) ==> f.concurrency == dec_value(s@))
                &&& (args.query_window matches Some(s) ==> f.query_window == dec_value(s@))
                &&& (args.response_window matches Some(s) ==> f.response_window == dec_value(s@))
                &&& (args.remote_port matches Some(s) ==> f.remote_port == dec_value(s@))
                &&& (args.listen_port matches Some(s) ==> f.listen_port == dec_value(s@))
                &&& (args.query_min_time matches Some(s) ==> f.query_min_time_ms == dec_value(s@))
                &&& (args.query_max_time matches Some(s) ==> f.query_max_time_ms == dec_value(s@))
                &&& (args.query_mtu matches Some(s) ==> f.query_mtu == Some(
                    (dec_value(s@) as u16),
                ))
                &&& (args.query_mtu is None ==> f.query_mtu is None)
                &&& (args.response_mtu matches Some(s) ==> f.response_mtu == Some(
                    (dec_value(s@) as u16),
                ))
                &&& (args.response_mtu is None ==> f.response_mtu is None)
            }),
    {
        let host = Domain::parse_str(args.host.as_str())?;
        let remote_host = match &args.remote_host {
            Some(s) => Domain::parse_str(s.as_str())?,
            None => Domain::parse_str("127.0.0.1")?,
        };
        let addr = match args.addr {
            Some(a) => a,
            None => "localhost:53".to_owned(),
        };
        let password = match args.password {
            Some(p) => p,
            None => "".to_owned(),
        };
        let concurrency = arg_u16(&args.concurrency, 2)?;
        let query_window = arg_u16(&args.query_window, 4)?;
        let response_window = arg_u16(&args.response_window, 4)?;
        let remote_port = arg_u16(&args.remote_port, 22)?;
        let listen_port = arg_u16(&args.listen_port, 2222)?;
        let query_min_time_ms = arg_u16(&args.query_min_time, 50)? as u64;
        let query_max_time_ms = arg_u16(&args.query_max_time, 5000)? as u64;
        let query_mtu = match &args.query_mtu {
            Some(s) => match parse_dec_u16(s.as_str()) {
                Some(v) => Some(v),
                None => {
                    return Err("bad argument".to_owned());
                },
            },
            None => None,
        };
        let response_mtu = match &args.response_mtu {
            Some(s) => match parse_dec_u16(s.as_str()) {
                Some(v) => Some(v),
                None => {
                    return Err("bad argument".to_owned());
                },
            },
            None => None,
        };
        proof {
            lemma_arg_nonneg(&args.concurrency);
            lemma_arg_nonneg(&args.query_window);
            lemma_arg_nonneg(&args.response_window);
            lemma_arg_nonneg(&args.remote_port);
            lemma_arg_nonneg(&args.listen_port);
            lemma_arg_nonneg(&args.query_min_time);
            lemma_arg_nonneg(&args.query_max_time);
            lemma_arg_nonneg(&args.query_mtu);
            lemma_arg_nonneg(&args.response_mtu);
        }
        Ok(
            Flags {
                addr,
                host,
                concurrency,
                query_window,
                response_window,
                password,
                remote_host,
                remote_port,
                listen_port,
                query_min_time_ms,
                query_max_time_ms,
                query_mtu,
                response_mtu,
            },
        )
    }
}

} // verus!
