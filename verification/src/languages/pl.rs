//! Polish.

use vstd::prelude::*;

use crate::languages::language::Language;
use crate::languages::lexicon::{Lexical, Lexicon};
use crate::languages::rules::Rules;
use crate::words::{listed, parse_word_list, WordSet};

verus! {

/// Abbreviations in Polish, one to a line.
pub const POLISH_ABBREVIATIONS: &'static str = "
// Titles.
dr
hab
inż
mgr
lic
prof
doc
gen
płk
ppłk
mjr
kpt
por
ppor
sierż
kpr
st
szer
ks
bp
abp
kard
o
br
św
bł
arch
adw
red
dyr
// References.
al
art
by
cd
c.d
cyt
cz
dn
f
fot
godz
in
itd
itp
jw
j.w
l
lit
m.in
mies
n
nast
niem
np
nr
ob
obr
op
ok
os
pkt
pl
pos
por
pow
późn
ps
pt
r
red
rozdz
rys
s
str
szt
tab
tel
tj
tys
tzn
tzw
tł
ub
ur
ul
ust
w
ww
wg
woj
wyd
zał
zb
zm
zob
zw
// Measures and numbers.
mln
mld
min
sek
proc
zł
gr
kg
km
cm
// The calendar.
p.n.e
n.e
stycz
lut
kwiet
czerw
lip
sierp
wrzes
paźdz
listop
grudz
";

#[derive(Debug)]
pub struct Polish {
    lexicon: Lexicon,
}

impl Polish {
    pub fn new() -> (r: Polish)
        ensures
            r.rules() == Rules::standard(
                listed(seq![POLISH_ABBREVIATIONS]),
                Set::empty(),
            ),
    {
        let lists: [&str; 1] = [POLISH_ABBREVIATIONS];
        assert(lists@ =~= seq![POLISH_ABBREVIATIONS]);
        Polish { lexicon: Lexicon::new(parse_word_list(&lists), WordSet::new()) }
    }
}

impl Lexical for Polish {
    closed spec fn words(&self) -> Lexicon {
        self.lexicon
    }

    fn lexicon(&self) -> (r: &Lexicon) {
        &self.lexicon
    }
}

impl Clone for Polish {
    fn clone(&self) -> (r: Self)
        ensures
            r.rules() == self.rules(),
    {
        Polish { lexicon: self.lexicon.clone() }
    }
}

} // verus!
