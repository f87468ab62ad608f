//! Prefix lists that come with the library.
use vstd::prelude::*;

verus! {

/// English non-breaking prefixes.
pub const ENGLISH: &'static str = "# Anything in this file, followed by a period, does not end a sentence.
# Single uppercase letters are taken to be initials.
A\nB\nC\nD\nE\nF\nG\nH\nI\nJ\nK\nL\nM\nN\nO\nP\nQ\nR\nS\nT\nU\nV\nW\nX\nY\nZ

# Titles and honorifics
Adj\nAdm\nAdv\nAsst\nBart\nBldg\nBrig\nBros\nCapt\nCmdr\nCol\nComdr\nCon\nCorp\nCpl
DR\nDr\nDrs\nEns\nGen\nGov\nHon\nHr\nHosp\nInsp\nLt\nMM\nMR\nMRS\nMS\nMaj\nMessrs
Mlle\nMme\nMr\nMrs\nMs\nMsgr\nOp\nOrd\nPfc\nPh\nProf\nPvt\nRep\nReps\nRes\nRev\nRt
Sen\nSens\nSfc\nSgt\nSr\nSt\nSupt\nSurg

# Miscellaneous
v\nvs\ni.e\nrev\ne.g

# Numbers only: these are not prefixes when a word follows
No #NUMERIC_ONLY#
Nos
Art #NUMERIC_ONLY#
Nr
pp #NUMERIC_ONLY#

# Months
Jan\nFeb\nMar\nApr\nJun\nJul\nAug\nSep\nOct\nNov\nDec
";

/// German non-breaking prefixes.
pub const GERMAN: &'static str = "# Anything in this file, followed by a period, does not end a sentence.
A\nB\nC\nD\nE\nF\nG\nH\nI\nJ\nK\nL\nM\nN\nO\nP\nQ\nR\nS\nT\nU\nV\nW\nX\nY\nZ
a\nb\nc\nd\ne\nf\ng\nh\ni\nj\nk\nl\nm\nn\no\np\nq\nr\ns\nt\nu\nv\nw\nx\ny\nz
Abs\nAbt\nAnm\nAufl\nBd\nBsp\nbzw\nca\nDr\nDipl\nd.h\netc\nevtl\nFa\nff\nFr\nggf\nHr\nHrn
Ing\ninkl\nJh\nMio\nMrd\nNr #NUMERIC_ONLY#\nProf\nS #NUMERIC_ONLY#\nSt\nStr\nu.a\nusw
vgl\nz.B\nzzgl
";

/// French non-breaking prefixes.
pub const FRENCH: &'static str = "# Anything in this file, followed by a period, does not end a sentence.
A\nB\nC\nD\nE\nF\nG\nH\nI\nJ\nK\nL\nM\nN\nO\nP\nQ\nR\nS\nT\nU\nV\nW\nX\nY\nZ
Co\nCorp\nDr\netc\nInc\nLtd\nMM\nMe\nMgr\nMlle\nMlles\nMme\nMmes\nMr\nPr\nSt\ncf\nvol
No #NUMERIC_ONLY#\np #NUMERIC_ONLY#\npp #NUMERIC_ONLY#
";

/// The prefix list that comes with the library for a language code; empty for codes
/// that have none.
pub open spec fn bundled_list(language: Seq<char>) -> Seq<char> {
    if language == seq!['e', 'n'] {
        ENGLISH@
    } else if language == seq!['d', 'e'] {
        GERMAN@
    } else if language == seq!['f', 'r'] {
        FRENCH@
    } else {
        Seq::empty()
    }
}

/// The prefix list that comes with the library for a language code.
pub fn bundled_prefixes(language: &[char]) -> (r: &'static str)
    ensures
        r@ == bundled_list(language@),
{
    if language.len() != 2 {
        proof {
            reveal_strlit("");
        }
        return "";
    }
    if language[0] == 'e' && language[1] == 'n' {
        assert(language@ =~= seq!['e', 'n']);
        ENGLISH
    } else if language[0] == 'd' && language[1] == 'e' {
        assert(language@ =~= seq!['d', 'e']);
        GERMAN
    } else if language[0] == 'f' && language[1] == 'r' {
        assert(language@ =~= seq!['f', 'r']);
        FRENCH
    } else {
        proof {
            reveal_strlit("");
        }
        ""
    }
}

} // verus!
