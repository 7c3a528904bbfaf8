//! English.

use vstd::prelude::*;

use crate::languages::language::Language;
use crate::languages::lexicon::{Lexical, Lexicon};
use crate::languages::rules::Rules;
use crate::words::{listed, parse_word_list};

verus! {

/// Abbreviations in English, one to a line.
pub const ENGLISH_ABBREVIATIONS: &'static str = "
// Single letters.
A
B
C
D
E
F
G
H
I
J
K
L
M
N
O
P
Q
R
S
T
U
V
W
X
Y
Z
// Titles and ranks.
Adj
Adm
Adv
Asst
Bart
Brig
Capt
Cmdr
Col
Comdr
Cpl
Dr
Drs
Ens
Gen
Gov
Hon
Insp
Lt
Maj
Messrs
Mlle
Mme
Mr
Mrs
Ms
DR
MM
MR
MRS
MS
Msgr
Mt
Pfc
Pres
Prof
Pvt
Rep
Reps
Rev
Rt
Sen
Sens
Sfc
Sgt
Sr
Jr
St
Supt
Surg
// Degrees.
Ph
Ph.D
B.A
B.Sc
M.A
M.Sc
M.D
// Firms and places.
Assn
Ave
Bldg
Blvd
Bros
Co
Corp
Dept
Est
Hosp
Hwy
Inc
Ltd
Rd
Univ
// States.
Ala
Ariz
Ark
Calif
Colo
Conn
Del
Fla
Ga
Ill
Ind
Kan
Ky
La
Md
Mich
Minn
Miss
Mo
Mont
Neb
Nev
Okla
Ore
Penn
Tenn
Tex
Va
Vt
Wash
Wis
Wyo
// Countries and bodies.
U.K
U.N
U.S
U.S.A
U.S.S.R
D.C
E.U
// Months and days.
Jan
Feb
Mar
Apr
Jun
Jul
Aug
Sep
Sept
Oct
Nov
Dec
Mon
Tue
Tues
Wed
Thu
Thur
Thurs
Fri
Sat
Sun
// Times.
a.m
p.m
A.D
B.C
B.C.E
C.E
// References.
Art
al
approx
ca
cf
ch
e.g
ed
eds
esp
et
etc
feat
fig
figs
ff
i.e
ibid
id
man
no
No
Nos
Nr
op
Op
p
pp
par
pl
ref
rev
sec
ser
v
viz
vol
vols
vs
w.e.f
w.r.t
";

/// Words that open sentences in English, one to a line: function words and auxiliaries that
/// have no capital anywhere else.
pub const ENGLISH_STARTERS: &'static str = "
The
This
That
These
Those
There
Here
He
She
It
They
We
You
His
Her
Its
Their
Our
My
Your
When
Where
While
Why
What
Who
Whose
How
Which
Did
Does
Do
Is
Are
Was
Were
Has
Have
Had
Can
Could
Will
Would
Should
Shall
Must
May
But
And
So
Then
However
Although
Though
Because
Since
If
Unless
Until
Yet
No
Not
Some
Many
Most
All
Each
Every
Both
Another
Such
";

#[derive(Debug)]
pub struct English {
    lexicon: Lexicon,
}

impl English {
    pub fn new() -> (r: English)
        ensures
            r.rules() == Rules::standard(
                listed(seq![ENGLISH_ABBREVIATIONS]),
                listed(seq![ENGLISH_STARTERS]),
            ),
    {
        let lists: [&str; 1] = [ENGLISH_ABBREVIATIONS];
        let opener_lists: [&str; 1] = [ENGLISH_STARTERS];
        assert(lists@ =~= seq![ENGLISH_ABBREVIATIONS]);
        assert(opener_lists@ =~= seq![ENGLISH_STARTERS]);
        English {
            lexicon: Lexicon::new(parse_word_list(&lists), parse_word_list(&opener_lists)),
        }
    }
}

impl Lexical for English {
    closed spec fn words(&self) -> Lexicon {
        self.lexicon
    }

    fn lexicon(&self) -> (r: &Lexicon) {
        &self.lexicon
    }
}

impl Clone for English {
    fn clone(&self) -> (r: Self)
        ensures
            r.rules() == self.rules(),
    {
        English { lexicon: self.lexicon.clone() }
    }
}

} // verus!
