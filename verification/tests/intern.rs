use n2::intern::{Intern, Symbol};

#[test]
fn user() {
    let mut i = Intern::new();
    let hi = i.add("hi".as_bytes());
    let yo = i.add("yo".as_bytes());
    let hi2 = i.add("hi".as_bytes());
    assert_eq!(hi, hi2);
    assert_ne!(hi, yo);

    assert_eq!(i.get(hi), "hi".as_bytes());
    assert_eq!(i.get(yo), "yo".as_bytes());
}

/// Symbols are numbered in the order strings are first interned, and the
/// empty string is a string like any other.
#[test]
fn symbols_in_order_of_interning() {
    let mut i = Intern::new();
    let words: [&[u8]; 5] = [b"", b"a", b"ab", b"a", b""];
    let syms: Vec<Symbol> = words.iter().map(|w| i.add(w)).collect();
    assert_eq!(syms, vec![Symbol(0), Symbol(1), Symbol(2), Symbol(1), Symbol(0)]);
    for (w, s) in words.iter().zip(&syms) {
        assert_eq!(i.get(*s), *w);
    }
}

/// Enough strings to make the table grow several times: each keeps its symbol.
#[test]
fn many_strings_keep_their_symbols() {
    let mut i = Intern::new();
    let names: Vec<Vec<u8>> = (0..500).map(|n| format!("file{}.o", n).into_bytes()).collect();
    let first: Vec<Symbol> = names.iter().map(|n| i.add(n)).collect();
    let again: Vec<Symbol> = names.iter().map(|n| i.add(n)).collect();
    assert_eq!(first, again);
    for (n, s) in names.iter().zip(&first) {
        assert_eq!(i.get(*s), n.as_slice());
    }
}
