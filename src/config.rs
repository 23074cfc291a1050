//! The service configuration, its defaults and its consistency rule.
use vstd::prelude::*;
use vstd::string::*;

use crate::error::Error;

verus! {

/// Where the sources are, how to shift them, and what to publish.
#[derive(Clone, Debug)]
pub struct Config {
    pub urls: Vec<String>,
    /// Hour offset per source, by position; the last one serves any further source.
    pub tz_offsets: Vec<i64>,
    pub host: String,
    pub port: u32,
    pub hide_details: bool,
    pub merge_overlapping_events: bool,
    /// Keep only this many days ahead, when set.
    pub future_days_limit: Option<u32>,
}

pub open spec fn config_message() -> Seq<char> {
    seq![
        'M', 'E', 'R', 'G', 'E', '_', 'O', 'V', 'E', 'R', 'L', 'A', 'P', 'P', 'I', 'N', 'G', '_',
        'E', 'V', 'E', 'N', 'T', 'S', ' ', 'c', 'a', 'n', 'n', 'o', 't', ' ', 'b', 'e', ' ', 'u',
        's', 'e', 'd', ' ', 'w', 'i', 't', 'h', 'o', 'u', 't', ' ', 'H', 'I', 'D', 'E', ' ', 'D',
        'E', 'T', 'A', 'I', 'L', 'S',
    ]
}

pub fn default_port() -> (r: u32)
    ensures
        r == 3000,
{
    3000
}

pub open spec fn default_host_text() -> Seq<char> {
    seq!['0', '.', '0', '.', '0', '.', '0']
}

pub fn default_host() -> (r: String)
    ensures
        r@ == default_host_text(),
{
    let h = "0.0.0.0";
    proof {
        reveal_strlit("0.0.0.0");
        assert(h@ =~= default_host_text());
    }
    String::from_str(h)
}

pub fn default_hide_details() -> (r: bool)
    ensures
        r,
{
    true
}

pub fn default_tz_offsets() -> (r: Vec<i64>)
    ensures
        r@.len() == 0,
{
    Vec::new()
}

pub fn default_merge_overlapping_events() -> (r: bool)
    ensures
        r,
{
    true
}

impl Config {
    /// Merging events is only allowed together with hiding details.
    pub fn validate(&self) -> (r: Result<(), Error>)
        ensures
            r is Err <==> (!self.hide_details && self.merge_overlapping_events),
            r matches Err(e) ==> e matches Error::Config(m) && m@ == config_message(),
    {
        if !self.hide_details && self.merge_overlapping_events {
            let m = "MERGE_OVERLAPPING_EVENTS cannot be used without HIDE DETAILS";
            proof {
                reveal_strlit("MERGE_OVERLAPPING_EVENTS cannot be used without HIDE DETAILS");
                assert(m@ =~= config_message());
            }
            Err(Error::Config(String::from_str(m)))
        } else {
            Ok(())
        }
    }
}

} // verus!
