use html_query_parser::parse;

#[test]
fn parse_paired_tag() {
    parse("<p></p>").unwrap();
    parse("<div>Hello, world!</div>").unwrap();
}

#[test]
fn parse_void_tag() {
    parse("<div />").unwrap();
    parse("<div/>").unwrap();
}

#[test]
fn parse_self_closing_tag() {
    parse("<img>").unwrap();
}

#[test]
fn parse_comment_tag() {
    parse("<!-- comment -->").unwrap();
    parse("<!--comment-->").unwrap();
}

#[test]
fn parse_attributes() {
    parse("<img src=\"example.png\" alt=example>").unwrap();
    parse("<input disabled type=\"button\">").unwrap();
}

#[test]
fn matched() {
    parse(
        r#"
        <span>
            <span>
                <span></span>
            </span>
        </span>"#,
    )
    .unwrap();
    parse(
        r#"
        <span></span>
        <span></span>
        <span></span>"#,
    )
    .unwrap();
    parse(
        r#"
        <span>
            <span></span>
        </span>
        <span></span>"#,
    )
    .unwrap();
}

#[test]
fn parse_complex() {
    parse(
        r#"
        <!DOCTYPE html>
        <html lang="en">
        <head>
            <meta charset="UTF-8">
            <meta http-equiv="X-UA-Compatible" content="IE=edge">
            <meta name="viewport" content="width=device-width, initial-scale=1.0">
            <title>Document</title>
        </head>
        <body>
            <header>Example</header>
            <div>
                <input value="<p value='haha'></p>" disable placeholder=input>
                <input value="\"\"''/>">
                <!-- Nothing is true -->
                <!-- Everything is permitted -->
                <!-- <p></p> -->
                <!------------->
                <a b="" c="d"></a>
            </div>
            <footer></footer>
        </body>
        </html>"#,
    )
    .unwrap();
}
