use code_index::parser::c_sharp::CSharpParser;

#[test]
fn c_sharp_test_parse_class_with_methods() {
    let parser = CSharpParser::new();
    let source = r#"
namespace App.Core
{
    /// <summary>Сервис заказов.</summary>
    public class OrderService : BaseService, IOrderService
    {
        public int Total { get; set; }

        public OrderService(IRepo repo) { _repo = repo; }

        public async Task<int> CalculateAsync(int id)
        {
            var order = _repo.Find(id);
            return Sum(order);
        }
    }
}
"#;
    let result = parser.parse(source, "test.cs").unwrap();
    assert_eq!(result.classes.len(), 1);
    assert_eq!(result.classes[0].name, "OrderService");
    assert!(result.classes[0].docstring.is_some());
    assert!(result.classes[0].bases.as_deref().unwrap().contains("IOrderService"));

    assert!(result
        .functions
        .iter()
        .any(|f| f.name == "CalculateAsync" && f.is_async));
    assert!(result
        .functions
        .iter()
        .any(|f| f.qualified_name.as_deref() == Some("OrderService.OrderService")));
}

#[test]
fn c_sharp_test_parse_calls() {
    let parser = CSharpParser::new();
    let source = r#"
class C {
    void Run() {
        Helper.Log("x");
        Process();
    }
}
"#;
    let result = parser.parse(source, "test.cs").unwrap();
    assert!(result.calls.iter().any(|c| c.callee == "Log" && c.caller == "Run"));
    assert!(result.calls.iter().any(|c| c.callee == "Process"));
}

#[test]
fn test_parse_usings() {
    let parser = CSharpParser::new();
    let source = r#"
using System.Text;
using Alias = Foo.Bar;
"#;
    let result = parser.parse(source, "test.cs").unwrap();
    assert!(result
        .imports
        .iter()
        .any(|i| i.module.as_deref() == Some("System.Text")));
    assert!(result
        .imports
        .iter()
        .any(|i| i.alias.as_deref() == Some("Alias")));
}

#[test]
fn test_parse_interface_struct_enum() {
    let parser = CSharpParser::new();
    let source = r#"
interface IFoo { void Do(); }
struct Point { public int X; }
enum Color { Red, Green }
"#;
    let result = parser.parse(source, "test.cs").unwrap();
    assert!(result.classes.iter().any(|c| c.name == "IFoo"));
    assert!(result.classes.iter().any(|c| c.name == "Point"));
    assert!(result.classes.iter().any(|c| c.name == "Color"));
    assert!(result.variables.iter().any(|v| v.name == "X"));
}
