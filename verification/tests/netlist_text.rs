use hfq_rs::annotations::{netlist_variables, strip_annotations};
use hfq_rs::josim::raw_to_filestream;
use hfq_rs::substitute::{variable_changer, ChangeError};
use hfq_rs::transient::csv_output_netlist;
use regex::Regex;
use std::collections::HashMap;
use std::sync::{Mutex, OnceLock};

fn cached(pattern: &str) -> Regex {
    static CACHE: OnceLock<Mutex<HashMap<String, Regex>>> = OnceLock::new();
    let cache = CACHE.get_or_init(|| Mutex::new(HashMap::new()));
    let mut map = cache.lock().unwrap();
    map.entry(pattern.to_string()).or_insert_with(|| Regex::new(pattern).unwrap()).clone()
}

fn pairs(v: &[(&str, &str)]) -> Vec<(String, String)> {
    v.iter().map(|(a, b)| (a.to_string(), b.to_string())).collect()
}

/// The parameter list as the regex-based reader computes it.
fn regex_variables(text: &str) -> Vec<(String, String)> {
    let re = cached(r"(?<value>[\d.]+)\w*?\s*?#!(?<label>.+)\s*?\n");
    let mut out: Vec<(String, String)> = Vec::new();
    for caps in re.captures_iter(text) {
        let label = caps.name("label").unwrap().as_str().to_string();
        let value = caps.name("value").unwrap().as_str().to_string();
        if !out.iter().any(|(l, _)| *l == label) {
            out.push((label, value));
        }
    }
    out
}

fn regex_strip(text: &str) -> String {
    cached(r"#!.+\n").replace_all(text, "\n").to_string()
}

fn regex_change(text: &str, name: &str, number: &str) -> Option<String> {
    let pattern = format!(
        r"(?<divider>[=\s]+)(?<value>[\d.]+)(?<prefix>\w?)\w*?\s*?#!\s*?{}\s*?\n",
        name
    )
    .replace("\"", "");
    let re = cached(&pattern);
    if !re.is_match(text) {
        return None;
    }
    let caps = re.captures(text).unwrap();
    let rep = format!("{}{}{} #!{} \n", &caps["divider"], number, &caps["prefix"], name);
    Some(re.replace_all(text, rep.as_str()).to_string())
}

fn regex_table(output: &str) -> Option<String> {
    if !output.contains("100% Formatting Output\n") {
        return None;
    }
    let slice: Vec<&str> = output.split("100% Formatting Output\n").collect();
    let s = cached(r"\n +").replace_all(slice[1], "\n").to_string();
    Some(cached(r" +").replace_all(&s, ",").to_string())
}

fn regex_csv_netlist(netlist: &str, output: &str) -> Option<String> {
    let find_re = cached(r".file.+\n");
    let s = find_re.replace(netlist, "\n").to_string();
    let re = cached(r"(.tran.+\n)");
    let cap = re.captures(&s)?.get(1).unwrap().as_str().to_string();
    let replace = format!("{}.file {}\n", cap, output).replace("\"", "");
    Some(re.replace(&s, replace.as_str()).to_string())
}

const SAMPLES: &[&str] = &[
    "",
    ".param bias=20 #!bias\nL1 1 2 13.8p #!L1\nR1 1 2 80 #! R1\n",
    ".param bias=20 #!bias\n.param bias=30 #!bias\n",
    "x = 1 #!v\ny 2u #!v\n",
    "20\n#!x\n",
    "1.2.3abc  #!lbl  \n",
    "5#!\n7 #!a",
    "ab12cd #!q\n",
    "#!lonely\n 3 #!k\r\n",
    "v=1 #!\n#!w\n",
    "a=.5 #!\"quoted\"\n",
    "b= 4e #!  spaced name  \n  c=9 #!spaced name\n",
    "..#!dots\n",
    "L2 3 4 2p\t#!L2\nL2b 3 4 7p #!L2\n",
    "=5#!m\n=6 #!m\n",
];

#[test]
fn variables_example() {
    let text = ".param bias=20 #!bias\nL1 1 2 13.8p #!L1\nR1 1 2 80 #! R1\n.param bias=30 #!bias\n";
    assert_eq!(
        netlist_variables(text),
        pairs(&[("bias", "20"), ("L1", "13.8"), (" R1", "80")])
    );
}

#[test]
fn variables_need_a_label_and_a_new_line() {
    assert_eq!(netlist_variables("5#!\n7 #!a"), Vec::<(String, String)>::new());
    assert_eq!(netlist_variables("20\n#!x\n"), pairs(&[("x", "20")]));
}

#[test]
fn variables_agree_with_regex_reading() {
    for s in SAMPLES {
        assert_eq!(netlist_variables(s), regex_variables(s), "sample {:?}", s);
    }
}

#[test]
fn strip_twice_is_strip_once() {
    let once = strip_annotations("a 1 #!x\n##!y\n#!#!z\n");
    assert_eq!(once, "a 1 \n#\n\n");
    assert_eq!(strip_annotations(&once), once);
}

#[test]
fn strip_example() {
    assert_eq!(strip_annotations("a 1 #!x\nb\n"), "a 1 \nb\n");
    assert_eq!(strip_annotations("#!\nkeep #!tail"), "#!\nkeep #!tail");
}

#[test]
fn strip_agrees_with_regex_replacement() {
    for s in SAMPLES {
        assert_eq!(strip_annotations(s), regex_strip(s), "sample {:?}", s);
    }
}

#[test]
fn stripped_netlist_has_no_parameters() {
    for s in SAMPLES {
        assert!(netlist_variables(&strip_annotations(s)).is_empty(), "sample {:?}", s);
    }
}

#[test]
fn change_example() {
    let text = ".param bias=20p #!bias\nR1 1 2 80 #!r\n";
    assert_eq!(
        variable_changer(text, "bias", "25").unwrap(),
        ".param bias=25p #!bias \nR1 1 2 80 #!r\n"
    );
}

#[test]
fn change_uses_first_divider_everywhere() {
    assert_eq!(
        variable_changer("x = 1 #!v\ny 2u #!v\n", "v", "3").unwrap(),
        "x = 3 #!v \ny = 3 #!v \n"
    );
}

#[test]
fn label_with_a_dot_is_looked_up_literally() {
    assert_eq!(
        variable_changer("x = 1 #!a.b\ny = 2 #!axb\n", "a.b", "3").unwrap(),
        "x = 3 #!a.b \ny = 2 #!axb\n"
    );
    assert_eq!(
        variable_changer("r=4 #!(q)$\n", "(q)$", "7").unwrap(),
        "r=7 #!(q)$ \n"
    );
}

#[test]
fn unicode_letters_and_digits() {
    assert_eq!(netlist_variables("1\u{b5}#!x\n"), pairs(&[("x", "1")]));
    assert_eq!(netlist_variables("\u{663}2 #!y\n"), pairs(&[("y", "\u{663}2")]));
    assert_eq!(
        variable_changer("=1\u{b5}#!n\n", "n", "5").unwrap(),
        "=5\u{b5} #!n \n"
    );
    assert_eq!(regex_variables("1\u{b5}#!x\n"), pairs(&[("x", "1")]));
    assert_eq!(regex_change("=1\u{b5}#!n\n", "n", "5").unwrap(), "=5\u{b5} #!n \n");
}

#[test]
fn change_errors() {
    assert_eq!(
        variable_changer("x = 1 #!v\n", "w", "3"),
        Err(ChangeError::TargetNotFound)
    );
    assert_eq!(
        variable_changer("x=1 #!v\n", "a.b", "3"),
        Err(ChangeError::TargetNotFound)
    );
}

#[test]
fn change_agrees_with_regex_replacement() {
    let names = ["bias", "L1", "R1", " R1", "v", "x", "lbl", "k", "w", "m", "L2", "\"quoted\"", "spaced name", "nope"];
    for s in SAMPLES {
        for n in names.iter() {
            for num in ["25", "0.5", "1e-7", "-3"] {
                let ours = variable_changer(s, n, num).ok();
                assert_eq!(ours, regex_change(s, n, num), "sample {:?} name {:?}", s, n);
            }
        }
    }
}

#[test]
fn table_example() {
    let out = "progress\n100% Formatting Output\n  time  P(1)\n  0  1.5\n";
    assert_eq!(raw_to_filestream(out).unwrap(), ",time,P(1)\n0,1.5\n");
    assert_eq!(raw_to_filestream("error: singular"), None);
}

#[test]
fn table_agrees_with_regex_conversion() {
    let outputs = [
        "x\n100% Formatting Output\ntime V(1)\n 0   1\n   2 3\n",
        "100% Formatting Output\n",
        "a\n100% Formatting Output\n1 2\n100% Formatting Output\n3 4\n",
        "no marker here\n",
        "100% Formatting Output\n\n \n  a b  \n",
    ];
    for o in outputs {
        assert_eq!(raw_to_filestream(o), regex_table(o), "output {:?}", o);
    }
}

#[test]
fn csv_netlist_example() {
    let n = "X\n.tran 0.25p 100p\n.file old.csv\n.end\n";
    assert_eq!(
        csv_output_netlist(n, "/tmp/a.csv").unwrap(),
        "X\n.tran 0.25p 100p\n.file /tmp/a.csv\n\n.end\n"
    );
    assert_eq!(csv_output_netlist("X\n.end\n", "o.csv"), None);
}

#[test]
fn csv_netlist_template_references() {
    assert_eq!(csv_output_netlist(".tran 1p $$x\n", "o").unwrap(), ".tran 1p $x\n.file o\n");
    assert_eq!(csv_output_netlist(".tran 1 $9\n", "o").unwrap(), ".tran 1 \n.file o\n");
    assert_eq!(
        csv_output_netlist(".tran ${1}\n", "o").unwrap(),
        ".tran .tran ${1}\n\n.file o\n"
    );
}

#[test]
fn csv_netlist_agrees_with_regex_rewrite() {
    let netlists = [
        "X\n.tran 0.25p 100p\n.file old.csv\n.end\n",
        ".file a\n.file b\n.tran 1 2\n",
        ".tran 1p $$x\n",
        ".tran 1 $9 $0 $01 ${+1} ${x} $ ${1\n",
        "\"q\".tran \"1\"\n.end\n",
        "xtran 5\n",
        ".tran\n.tran 3\n",
        "no transient\n",
    ];
    for n in netlists {
        for o in ["out.csv", "/tmp/q\"x.csv", "a$1b"] {
            assert_eq!(csv_output_netlist(n, o), regex_csv_netlist(n, o), "netlist {:?} out {:?}", n, o);
        }
    }
}

/// A small deterministic generator of test texts.
struct Lcg(u64);

impl Lcg {
    fn next(&mut self) -> u64 {
        self.0 = self.0.wrapping_mul(6364136223846793005).wrapping_add(1442695040888963407);
        self.0 >> 33
    }

    fn text(&mut self, alphabet: &[&str], max_len: u64) -> String {
        let n = self.next() % (max_len + 1);
        (0..n).map(|_| alphabet[(self.next() % alphabet.len() as u64) as usize]).collect()
    }
}

const PIECES: &[&str] = &[
    "0", "1", "9", ".", "=", " ", "  ", "\n", "\t", "\r", "#", "!", "#!", "a", "p", "_", "X", "v",
    "\"", "$", "{", "}", "tran", "file", ".tran ", ".file ", "100% Formatting Output\n", "\u{a0}",
    "\u{b5}", "\u{e9}", "\u{663}", "\u{ff10}", "\u{2003}", "\u{301}",
];

#[test]
fn generated_texts_agree_with_regex_reading() {
    let mut g = Lcg(7);
    for _ in 0..1500 {
        let s = g.text(PIECES, 24);
        assert_eq!(netlist_variables(&s), regex_variables(&s), "text {:?}", s);
        assert_eq!(strip_annotations(&s), regex_strip(&s), "text {:?}", s);
        assert!(netlist_variables(&strip_annotations(&s)).is_empty(), "text {:?}", s);
        assert_eq!(strip_annotations(&strip_annotations(&s)), strip_annotations(&s), "text {:?}", s);
        assert_eq!(raw_to_filestream(&s), regex_table(&s), "text {:?}", s);
        assert_eq!(csv_output_netlist(&s, "o$1.csv"), regex_csv_netlist(&s, "o$1.csv"), "text {:?}", s);
        for name in ["v", "a", " v", "X_", "\"v\"", ""] {
            assert_eq!(
                variable_changer(&s, name, "42").ok(),
                regex_change(&s, name, "42"),
                "text {:?} name {:?}",
                s,
                name
            );
        }
    }
}

#[test]
fn table_has_no_spaces() {
    let out = "x\n100% Formatting Output\n time   V(1)  P(2)\n   0   1  2 \n";
    let table = raw_to_filestream(out).unwrap();
    assert!(!table.contains(' '));
    assert_eq!(table, ",time,V(1),P(2)\n0,1,2,\n");
}

#[test]
fn change_keeps_text_before_first_assignment() {
    let text = "* header 7\nR1 1 2 80 #!r\nX = 3 #!r\n";
    let changed = variable_changer(text, "r", "90").unwrap();
    assert!(changed.starts_with("* header 7\nR1 1 2 90 #!r \n"));
    assert_eq!(changed, "* header 7\nR1 1 2 90 #!r \nX 90 #!r \n");
}

#[test]
fn changed_value_reads_back() {
    let text = ".param a=1 #!L1\nx=2u #!L2\n";
    let changed = variable_changer(text, "L2", "3.5").unwrap();
    assert_eq!(changed, ".param a=1 #!L1\nx=3.5u #!L2 \n");
    assert_eq!(netlist_variables(&changed), pairs(&[("L1", "1"), ("L2 ", "3.5")]));
    assert_eq!(
        variable_changer(&changed, "L2", "4").unwrap(),
        ".param a=1 #!L1\nx=4u #!L2 \n"
    );
    assert_eq!(
        variable_changer(&changed, "L2", "4").unwrap(),
        variable_changer(text, "L2", "4").unwrap()
    );
}

#[test]
fn second_change_can_meet_a_new_assignment() {
    // The first divider holds a new line; written into the second assignment,
    // it completes the line before it as one more assignment of `n`.
    let text = "\n=1 #!n\n=9 #!n =2 #!n\n";
    let once = variable_changer(text, "n", "5").unwrap();
    assert_eq!(once, "\n=5 #!n \n=9 #!n\n=5 #!n \n");
    let twice = variable_changer(&once, "n", "7").unwrap();
    assert_eq!(twice, "\n=7 #!n \n\n=7 #!n \n\n=7 #!n \n");
    assert_eq!(
        variable_changer(text, "n", "7").unwrap(),
        "\n=7 #!n \n=9 #!n\n=7 #!n \n"
    );
    assert_eq!(regex_change(text, "n", "5"), Some(once.clone()));
    assert_eq!(regex_change(&once, "n", "7"), Some(twice));
    // A name that holds `#!` is completed by the new number in the same way.
    let text = "=9 #!\nb=3 #!\nb=5 #!\n";
    let name = "\nb=5 #!";
    let once = variable_changer(text, name, "5").unwrap();
    assert_eq!(once, "=9 #!\nb=5 #!\nb=5 #! \n");
    let twice = variable_changer(&once, name, "7").unwrap();
    assert_eq!(twice, "=7 #!\nb=5 #! \nb=5 #! \n");
    assert_eq!(variable_changer(text, name, "7").unwrap(), "=9 #!\nb=7 #!\nb=5 #! \n");
    assert_eq!(regex_change(text, name, "5"), Some(once.clone()));
    assert_eq!(regex_change(&once, name, "7"), Some(twice));
}

#[test]
fn later_change_overrides_for_spaced_names_and_broken_dividers() {
    let text = "x=1 #!a b\n";
    let once = variable_changer(text, "a b", "5").unwrap();
    assert_eq!(once, "x=5 #!a b \n");
    assert_eq!(
        variable_changer(&once, "a b", "7").unwrap(),
        variable_changer(text, "a b", "7").unwrap()
    );
    let text = "x\n=1 #!n\n";
    let changed = variable_changer(text, "n", "5").unwrap();
    assert_eq!(changed, "x\n=5 #!n \n");
    assert_eq!(netlist_variables(&changed), pairs(&[("n ", "5")]));
}

#[test]
fn read_back_needs_the_reading_to_reach_the_assignment() {
    // The annotation of `5` takes the rest of the line as its label, so the
    // assignment of `n` on that line is never read as an annotation.
    let changed = variable_changer("5 #!lab =3 #!n\n", "n", "7").unwrap();
    assert_eq!(changed, "5 #!lab =7 #!n \n");
    assert_eq!(netlist_variables(&changed), pairs(&[("lab =7 #!n ", "5")]));
}
