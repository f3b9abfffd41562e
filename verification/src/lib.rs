//! Longest-prefix lookups of IP addresses and networks against the prefixes
//! announced in RIS whois dumps, cell by cell over a column.

pub mod prefix;
pub mod trie;
pub mod dump;
pub mod scalar;
