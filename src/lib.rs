//! A typed envelope around SPHINCS+ signing: key material held as fixed-length
//! byte strings, signatures held as width-bounded unsigned integers, and the
//! byte-order discipline between the signing primitive and stored forms.

pub mod bigint;

pub mod spx;
