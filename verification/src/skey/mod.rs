//! The scan-key protocol of `brscan-skey`: an SNMP registration on UDP/161 and the
//! datagrams that arrive on UDP/54925, as parsers and builders with no socket in sight.
pub mod event;
pub mod fields;
pub mod function;
pub mod register;
pub mod snmp;
