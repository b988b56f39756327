use cg3::{from_string, to_cg3_string};

#[test]
fn basic() {
    let stream = r#"
some garbage
"<They>" TAG1 TAG2
    "they" <*> PRON PERS NOM PL3 SUBJ
garbage
"<went>"
    "go" V PAST VFIN
"<to>"
    "to" PREP
"<the>"
    "the" DET CENTRAL ART SG/PL
: other garbage
"<zoo>"
    "zoo" N NOM SG
    : almost a thing
"<to>"
    "to" INFMARK>
"<look>"
    "look" V INF
"<at>"
    "at" PREP
"<the>"
    "the" DET CENTRAL ART SG/PL
"<bear>"
    "bear" N NOM SG
"<.>"
        "#;

    let foo = from_string(stream);
    println!("{:?}", foo);
}

#[test]
fn basic2() {
    let stream = r#"
"<same>"
    "sáve" N <NomGenSg> Sem/Dummytag Sg Nom <W:21.3018> <WA:15.3018> <spelled> "<sáve>" @SUBJ> &SUGGESTWF &typo
    "sále" N <NomGenSg> Sem/Build-part Sg Nom <W:21.3018> <WA:15.3018> <spelled> "<sále>" @SUBJ> &SUGGESTWF &typo
"<">"
    """ PUNCT <W:0.0>
"<>>"
    ">" PUNCT LEFT <W:0.0>
:
"<hello>"
    "heallat" Ex/V Ex/IV Der/PassS <mv> V <0> IV Ind Prs Sg3 <W:0.0> @+FMAINV
"<.>"
    "." CLB <W:0.0> <NoSpaceAfterPunctMark>
        "#;

    let foo = from_string(stream);
    println!("{:?}", foo);
}


#[test]
fn pathological() {
    let stream = r#"
"<">"
    """ PUNCT <W:0.0>
"<">"
    """ PUNCT <W:0.0>
"<>>"
    ">" PUNCT LEFT <W:0.0>
"<">"
    """ PUNCT <W:0.0>
"<<>"
    "<" PUNCT LEFT <W:0.0>
"<>>"
    ">" PUNCT LEFT <W:0.0>
:
"<<>"
    "<" PUNCT LEFT <W:0.0>
"<">"
    """ PUNCT <W:0.0>
"<<>"
    "<" PUNCT LEFT <W:0.0> <spaceAfterParenBeg> &space-after-paren-beg &space-before-paren-end &LINK ID:9 R:RIGHT:10
    "<" PUNCT LEFT <W:0.0> <spaceAfterParenBeg> "<<>>" &space-after-paren-beg &SUGGESTWF ID:9 R:RIGHT:10
:
"<>>"
    ">" PUNCT LEFT <W:0.0> <spaceBeforeParenEnd> &LINK &space-after-paren-beg &space-before-paren-end ID:10 R:LEFT:9
"<">"
    """ PUNCT <W:0.0>
"<>>"
    ">" PUNCT LEFT <W:0.0>
:
"<<>"
    "<" PUNCT LEFT <W:0.0>
"<">"
    """ PUNCT <W:0.0>
"<>>"
    ">" PUNCT LEFT <W:0.0>
        "#;

    let foo = from_string(stream);
    println!("{:?}", foo);
}

#[test]
fn idempotent() {
    let stream = r#""<same>"
    "sáve" N <NomGenSg> Sem/Dummytag Sg Nom <W:21.3018> <WA:15.3018> <spelled> "<sáve>" @SUBJ> &SUGGESTWF &typo
    "sále" N <NomGenSg> Sem/Build-part Sg Nom <W:21.3018> <WA:15.3018> <spelled> "<sále>" @SUBJ> &SUGGESTWF &typo
"<">"
    """ PUNCT <W:0.0>
"<>>"
    ">" PUNCT LEFT <W:0.0>
"<hello>"
    "heallat" Ex/V Ex/IV Der/PassS <mv> V <0> IV Ind Prs Sg3 <W:0.0> @+FMAINV
"<.>"
    "." CLB <W:0.0> <NoSpaceAfterPunctMark>
"#;
    let foo = from_string(stream);
    println!("{:?}", foo);
    let s = to_cg3_string(&foo);
    println!("{}", s);
    assert_eq!(stream, &s);
}
