//! Conflating the assignments of small programs, written as source text.
use comment_weave::compress::compress;
use comment_weave::conflate::{Binding, Item, Reference, Statement, Target, Value};

/// Splits a program into words and punctuation.
fn tokens_of(source: &str) -> Vec<String> {
    let chars: Vec<char> = source.chars().collect();
    let mut tokens = Vec::new();
    let mut i = 0;
    while i < chars.len() {
        let c = chars[i];
        if c.is_whitespace() {
            i += 1;
        } else if c.is_alphanumeric() || c == '_' {
            let mut word = String::new();
            while i < chars.len() && (chars[i].is_alphanumeric() || chars[i] == '_') {
                word.push(chars[i]);
                i += 1;
            }
            tokens.push(word);
        } else if c == '+' && i + 1 < chars.len() && chars[i + 1] == '=' {
            tokens.push("+=".to_string());
            i += 2;
        } else {
            tokens.push(c.to_string());
            i += 1;
        }
    }
    tokens
}

fn is_name(token: &str) -> bool {
    let first = token.chars().next().unwrap();
    first.is_alphabetic() || first == '_'
}

/// A program being read: its tokens, the names that are declared at the top and in the current
/// function, and the texts that stand behind numbers.
struct Reader {
    tokens: Vec<String>,
    at: usize,
    declared: Vec<String>,
    parameters: Vec<String>,
    texts: Vec<String>,
}

impl Reader {
    fn new(source: &str) -> Reader {
        let tokens = tokens_of(source);
        let declared = declared_names(&tokens);
        Reader { tokens, at: 0, declared, parameters: Vec::new(), texts: Vec::new() }
    }

    fn peek(&self) -> &str {
        if self.at < self.tokens.len() {
            &self.tokens[self.at]
        } else {
            ""
        }
    }

    fn next(&mut self) -> String {
        self.at += 1;
        self.tokens[self.at - 1].clone()
    }

    fn expect(&mut self, token: &str) {
        assert_eq!(self.next(), token);
    }

    fn number_of(&mut self, text: &str) -> u32 {
        match self.texts.iter().position(|t| t == text) {
            Some(i) => i as u32,
            None => {
                self.texts.push(text.to_string());
                (self.texts.len() - 1) as u32
            }
        }
    }

    /// Is the name assigned to anywhere but in its declaration?
    fn is_assigned(&self, name: &str) -> bool {
        let mut declaring = false;
        for i in 0..self.tokens.len() {
            match self.tokens[i].as_str() {
                "let" | "const" => declaring = true,
                ";" => declaring = false,
                "{" => declaring = false,
                _ => {}
            }
            let assigns = i + 1 < self.tokens.len()
                && (self.tokens[i + 1] == "=" || self.tokens[i + 1] == "+=");
            let member = i > 0 && self.tokens[i - 1] == ".";
            if self.tokens[i] == name && assigns && !member && !declaring {
                return true;
            }
        }
        false
    }

    fn reference(&mut self, name: &str) -> Reference {
        let known = self.parameters.iter().any(|n| n == name)
            || self.declared.iter().any(|n| n == name);
        let binding = if !known {
            Binding::Unresolved
        } else if self.is_assigned(name) {
            Binding::Mutable
        } else {
            Binding::Stable
        };
        Reference { name: self.number_of(name), binding }
    }

    /// The text from a token up to the current one.
    fn text_from(&self, start: usize) -> String {
        self.tokens[start..self.at].join(" ")
    }

    fn opaque_from(&mut self, start: usize) -> Value {
        let text = self.text_from(start);
        Value::Opaque(self.number_of(&text))
    }

    fn skip_braces(&mut self) {
        self.expect("{");
        while self.peek() != "}" {
            if self.peek() == "{" {
                self.skip_braces();
            } else {
                self.next();
            }
        }
        self.expect("}");
    }

    fn unary(&mut self) -> Value {
        let start = self.at;
        if self.peek() == "typeof" {
            self.next();
            return Value::Typeof(Box::new(self.unary()));
        }
        if self.peek() == "{" {
            self.skip_braces();
            return self.opaque_from(start);
        }
        let token = self.next();
        if !is_name(&token) {
            return Value::Number(token.parse().unwrap());
        }
        if self.peek() == "(" {
            while self.next() != ")" {}
            return self.opaque_from(start);
        }
        if self.peek() == "." {
            self.next();
            self.next();
            return self.opaque_from(start);
        }
        Value::Name(self.reference(&token))
    }

    fn sum(&mut self) -> Value {
        let mut value = self.unary();
        while self.peek() == "+" {
            self.next();
            value = Value::Sum(Box::new(value), Box::new(self.unary()));
        }
        value
    }

    /// A target, where one stands here and `=` comes behind it.
    fn target(&mut self) -> Option<Target> {
        let t = |k: usize| self.tokens.get(self.at + k).map_or("", |s| s.as_str());
        if t(1) == "=" && is_name(t(0)) {
            let name = self.next();
            self.expect("=");
            return Some(Target::Name(self.reference(&name)));
        }
        if t(1) == "." && t(3) == "=" {
            let object = self.next();
            self.expect(".");
            let property = self.next();
            self.expect("=");
            let property = self.number_of(&property);
            return Some(if object == "this" {
                Target::ThisMember(property)
            } else {
                Target::Member(self.reference(&object), property)
            });
        }
        None
    }

    fn item(&mut self) -> Item {
        let mut targets = Vec::new();
        while let Some(target) = self.target() {
            targets.insert(0, target);
        }
        let start = self.at;
        let value = self.sum();
        if self.peek() == "+=" {
            self.next();
            self.sum();
            return Item::Other(self.opaque_from(start));
        }
        if targets.is_empty() {
            Item::Other(value)
        } else {
            Item::Assign(targets, value)
        }
    }

    /// The statements of a function up to its closing brace.
    fn body(&mut self) -> Vec<Statement> {
        let mut statements = Vec::new();
        self.expect("{");
        while self.peek() != "}" {
            let mut items = vec![self.item()];
            while self.peek() == "," {
                self.next();
                items.push(self.item());
            }
            self.expect(";");
            statements.push(Statement::Expression(items));
        }
        self.expect("}");
        statements
    }

    fn value_text(&self, value: &Value) -> String {
        match value {
            Value::Number(n) => n.to_string(),
            Value::Name(r) => self.texts[r.name as usize].clone(),
            Value::Typeof(inner) => format!("typeof {}", self.value_text(inner)),
            Value::Sum(a, b) => format!("{} + {}", self.value_text(a), self.value_text(b)),
            Value::Opaque(id) => self.texts[*id as usize].clone(),
        }
    }

    fn target_text(&self, target: &Target) -> String {
        match target {
            Target::Name(r) => self.texts[r.name as usize].clone(),
            Target::Member(r, p) => {
                format!("{}.{}", self.texts[r.name as usize], self.texts[*p as usize])
            }
            Target::ThisMember(p) => format!("this.{}", self.texts[*p as usize]),
        }
    }

    fn body_text(&self, body: &[Statement]) -> String {
        let mut out = String::new();
        for statement in body {
            let items = match statement {
                Statement::Expression(items) => items,
                Statement::Opaque(_) => unreachable!(),
            };
            let mut parts = Vec::new();
            for item in items {
                parts.push(match item {
                    Item::Assign(targets, value) => {
                        let mut text = String::new();
                        for target in targets.iter().rev() {
                            text += &format!("{} = ", self.target_text(target));
                        }
                        text + &self.value_text(value)
                    }
                    Item::Other(value) => self.value_text(value),
                });
            }
            out += &parts.join(", ");
            out += "; ";
        }
        out
    }
}

/// The names that are declared at the top of the program.
fn declared_names(tokens: &[String]) -> Vec<String> {
    let mut names = Vec::new();
    let mut depth = 0;
    let mut declaring = false;
    for i in 0..tokens.len() {
        match tokens[i].as_str() {
            "{" => depth += 1,
            "}" => depth -= 1,
            ";" if depth == 0 => declaring = false,
            "let" | "const" if depth == 0 => declaring = true,
            _ => {}
        }
        let opens = i > 0
            && (tokens[i - 1] == "let"
                || tokens[i - 1] == "const"
                || tokens[i - 1] == "function"
                || (declaring && tokens[i - 1] == ","));
        if depth == 0 && opens && is_name(&tokens[i]) {
            names.push(tokens[i].clone());
        }
    }
    names
}

/// Reads a program, rewrites the body of each function, and writes the program down again. Also
/// tells how many passes changed something, at most, for a function.
fn rewritten(
    source: &str,
    rewrite: fn(Vec<Statement>) -> (Vec<Statement>, usize),
) -> (String, usize) {
    let mut reader = Reader::new(source);
    let mut out = String::new();
    let mut iterations = 0;
    while reader.at < reader.tokens.len() {
        let start = reader.at;
        if reader.peek() == "export" {
            reader.next();
        }
        if reader.peek() == "function" {
            while reader.peek() != "(" {
                reader.next();
            }
            reader.next();
            reader.parameters.clear();
            while reader.peek() != ")" {
                let token = reader.next();
                if token != "," {
                    reader.parameters.push(token);
                }
            }
            reader.next();
            out += &reader.text_from(start);
            let (body, passes) = rewrite(reader.body());
            iterations = iterations.max(passes);
            out += &format!(" {{ {}}} ", reader.body_text(&body));
        } else {
            while reader.peek() != ";" {
                if reader.peek() == "{" {
                    reader.skip_braces();
                } else {
                    reader.next();
                }
            }
            reader.next();
            out += &reader.text_from(start);
            out += " ";
        }
    }
    (out, iterations)
}

fn unchanged(body: Vec<Statement>) -> (Vec<Statement>, usize) {
    (body, 0)
}

fn test(source: &str, expected: &str) {
    assert_eq!(rewritten(source, compress).0, rewritten(expected, unchanged).0);
}

fn test_same(source: &str) {
    test(source, source);
}

#[test]
fn conflate_identifier_assignments() {
    test(
        "export let x, y; export function setVars(value) { x = value; y = value; }",
        "export let x, y; export function setVars(value) { y = x = value; }",
    );
    test(
        "export let x, y, z; export function setVars(value) { x = value, y = value, z = value; }",
        "export let x, y, z; export function setVars(value) { z = y = x = value; }",
    );
    test(
        "export let x, y; export function setVars() { x = 1 + 2, y = 1 + 2; }",
        "export let x, y; export function setVars() { y = x = 3; }",
    );
    test(
        "export let x, y, z, w; export function f(value) { x = value, y = value, sideEffect(), z = value, w = value; }",
        "export let x, y, z, w; export function f(value) { y = x = value, sideEffect(), w = z = value; }",
    );
    test(
        "export let x, y; export function f(value) { x = typeof value, y = typeof value; }",
        "export let x, y; export function f(value) { y = x = typeof value; }",
    );
}

#[test]
fn statement_fusion_does_not_add_an_iteration() {
    let source = "export let x, y; export function setVars(value) { x = value; y = value; }";
    let expected = "export let x, y; export function setVars(value) { y = x = value; }";
    let (text, iterations) = rewritten(source, compress);
    assert_eq!(text, rewritten(expected, unchanged).0);
    assert_eq!(iterations, 1);
}

#[test]
fn conflate_static_member_assignments() {
    test(
        "export const obj = {}; export function setProps(value) { obj.x = value; obj.y = value; }",
        "export const obj = {}; export function setProps(value) { obj.y = obj.x = value; }",
    );
    test(
        "export const obj = {}; export function setProps(value) { obj.x = value, obj.y = value, obj.z = value; }",
        "export const obj = {}; export function setProps(value) { obj.z = obj.y = obj.x = value; }",
    );
    test(
        "export function setProps(value) { this.x = value, this.y = value; }",
        "export function setProps(value) { this.y = this.x = value; }",
    );
}

#[test]
fn do_not_conflate_unsafe_assignments() {
    // The assignment targets must be resolved bindings.
    test_same("function setVars(value) { x = value, y = value; }");

    // Only plain assignments with structurally equal right-hand sides qualify.
    test_same("export let x, y; export function f(value) { x += value, y = value; }");
    test_same("export let x, y; export function f(a, b) { x = a, y = b; }");

    // Re-evaluation must not allocate a distinct value or run user code.
    test_same("export let x, y; export function f() { x = {}, y = {}; }");
    test_same("export let x, y; export function f() { x = value(), y = value(); }");

    // A mutable RHS binding could change between the two evaluations.
    test_same(
        "export let x, y, value; export function setValue(v) { value = v; } export function f() { x = value, y = value; }",
    );

    // Static member targets must use the same stable object binding.
    test_same(
        "export let obj = {}, other = {}; export function f(value) { obj.x = value, other.y = value; }",
    );
    test_same(
        "export let obj = {}; export function replace(value) { obj = value; } export function f(value) { obj.x = value, obj.y = value; }",
    );
}

#[test]
fn setter_cannot_change_repeated_rhs() {
    test_same(
        "export const obj = { set x(_) { value = 2; } }; export let value = 1; export function f() { obj.x = value, obj.y = value; }",
    );
}

#[test]
fn the_reader_tells_texts_apart() {
    let a = rewritten("export let x, y; export function f(v) { y = x = v; }", unchanged).0;
    let b = rewritten("export let x, y; export function f(v) { x = v, y = v; }", unchanged).0;
    assert_eq!(a, "export let x , y ; export function f ( v ) { y = x = v; } ");
    assert_ne!(a, b);
}

#[test]
fn a_settled_body_takes_no_pass() {
    let source = "export let x, y; export function f(v) { y = x = v; }";
    assert_eq!(rewritten(source, compress).1, 0);
}

#[test]
fn chains_grow_and_stay_in_order() {
    test(
        "export let x, y, z; export function f(v) { y = x = v; z = v; }",
        "export let x, y, z; export function f(v) { z = y = x = v; }",
    );
    // A name and a property do not share a chain.
    test_same("export let x; export function f(v) { x = v, this.y = v; }");
}

#[test]
fn inexact_sums_are_kept() {
    test_same("export let x, y; export function f() { x = 9007199254740992 + 1, y = 9007199254740992 + 1; }");
    test(
        "export let x, y; export function f() { x = 9007199254740991 + 1, y = 9007199254740992; }",
        "export let x, y; export function f() { y = x = 9007199254740992; }",
    );
}

/// Runs a body of plain assignments: what each name and property holds afterwards.
fn run(body: &[Statement], names: &mut Vec<i64>, properties: &mut Vec<(u32, i64)>) {
    for statement in body {
        if let Statement::Expression(items) = statement {
            for item in items {
                if let Item::Assign(targets, value) = item {
                    let x = match value {
                        Value::Number(n) => *n,
                        Value::Name(r) => names[r.name as usize],
                        _ => unreachable!(),
                    };
                    for target in targets {
                        match target {
                            Target::Name(r) => names[r.name as usize] = x,
                            Target::Member(_, p) => properties.push((*p, x)),
                            Target::ThisMember(p) => properties.push((*p, x)),
                        }
                    }
                }
            }
        }
    }
}

#[test]
fn conflation_keeps_what_a_body_does() {
    let name = |name: u32, binding: Binding| Reference { name, binding };
    let assign = |target: Target, value: Value| Item::Assign(vec![target], value);
    let body = || {
        let x = name(0, Binding::Mutable);
        let y = name(1, Binding::Mutable);
        let v = name(2, Binding::Stable);
        let o = name(3, Binding::Stable);
        vec![
            Statement::Expression(vec![
                assign(Target::Name(x), Value::Name(v)),
                assign(Target::Name(y), Value::Name(v)),
            ]),
            Statement::Expression(vec![assign(Target::Name(x), Value::Name(y))]),
            Statement::Expression(vec![
                assign(Target::Member(o, 7), Value::Number(4)),
                assign(Target::Member(o, 8), Value::Number(4)),
                assign(Target::ThisMember(9), Value::Number(4)),
            ]),
        ]
    };
    let (mut names, mut properties) = (vec![1, 2, 3, 4], Vec::new());
    run(&body(), &mut names, &mut properties);
    let (mut after, mut written) = (vec![1, 2, 3, 4], Vec::new());
    let (compressed, iterations) = compress(body());
    run(&compressed, &mut after, &mut written);
    assert_eq!(iterations, 1);
    assert_eq!(compressed.len(), 1);
    assert_eq!((names, properties), (after, written));
}
