# ip_more_less_specific

Longest-prefix lookups of IP addresses and networks against the prefixes
announced in the RIS whois dumps, as a DuckDB scalar function
(`riswhois_longest_prefix`).

- `src/` is the verified library:
  - `prefix`: IP networks as plain values, what it means for one to contain
    another, and the trusted `ipnet` parser and formatter;
  - `trie`: the table of networks over `ipnet_trie::IpnetTrie` and its
    longest-prefix lookup;
  - `dump`: reading the gzip-compressed dumps (header skipped, second
    tab-separated column kept) and building the table;
  - `scalar`: the column-at-a-time lookup that maps each cell to the text
    of the longest announced network containing it.
- `app/` is the extension around it: downloading the dumps, reading
  addresses, logging, and the DuckDB/Arrow glue.
