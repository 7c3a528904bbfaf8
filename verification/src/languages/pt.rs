//! Portuguese.

use vstd::prelude::*;

use crate::constants::ROMAN_NUMERALS;
use crate::languages::language::Language;
use crate::languages::lexicon::{Lexical, Lexicon};
use crate::languages::rules::Rules;
use crate::words::{listed, parse_word_list, raised_set_of, set_of, WordSet};

verus! {

/// Abbreviations in Portuguese, one to a line.
pub const PORTUGUESE_ABBREVIATIONS: &'static str = "
// Titles.
Sr
Sra
Srs
Sras
Srta
Dr
Dra
Drs
Dras
Prof
Profa
Eng
Enga
Exmo
Exma
D
Pe
Fr
Gen
Cel
Cap
Ten
Sgt
Cb
Maj
Alm
Bel
Des
Min
Dep
Sen
V.Exa
V.S
// Places and firms.
Av
Al
Pç
R
Rod
Trav
Tv
Lda
Ltda
Cia
S.A
Inc
Apt
Ap
Bl
Ed
Km
Dist
// References.
art
arts
cap
cf
ed
ex
etc
fig
fl
fls
it
n
nº
obs
op
org
p
pp
par
pág
págs
ref
s.d
s.l
sec
seg
séc
ss
tel
trad
v
vol
vols
vs
p.ex
i.e
// The calendar.
a.C
d.C
a.m
p.m
jan
fev
mar
abr
mai
jun
jul
ago
set
out
nov
dez
// Measures and numbers.
aprox
km
kg
min
seg
hab
máx
mín
núm
// Single letters.
A
B
C
E
F
G
H
I
J
K
L
M
N
O
P
Q
S
T
U
V
W
X
Y
Z
";

/// The abbreviations in Portuguese: those that are listed, and the Roman numerals, in
/// lower and in upper case.
pub open spec fn portuguese_abbreviations() -> Set<Seq<char>> {
    listed(seq![PORTUGUESE_ABBREVIATIONS]).union(set_of(ROMAN_NUMERALS@)).union(
        raised_set_of(ROMAN_NUMERALS@),
    )
}

#[derive(Debug)]
pub struct Portuguese {
    lexicon: Lexicon,
}

impl Portuguese {
    pub fn new() -> (r: Portuguese)
        ensures
            r.rules() == Rules::standard(
                portuguese_abbreviations(),
                Set::empty(),
            ),
    {
        let lists: [&str; 1] = [PORTUGUESE_ABBREVIATIONS];
        assert(lists@ =~= seq![PORTUGUESE_ABBREVIATIONS]);
        let abbreviations = parse_word_list(&lists).with_all(&ROMAN_NUMERALS).with_all_raised(
            &ROMAN_NUMERALS,
        );
        Portuguese { lexicon: Lexicon::new(abbreviations, WordSet::new()) }
    }
}

impl Lexical for Portuguese {
    closed spec fn words(&self) -> Lexicon {
        self.lexicon
    }

    fn lexicon(&self) -> (r: &Lexicon) {
        &self.lexicon
    }
}

impl Clone for Portuguese {
    fn clone(&self) -> (r: Self)
        ensures
            r.rules() == self.rules(),
    {
        Portuguese { lexicon: self.lexicon.clone() }
    }
}

} // verus!
